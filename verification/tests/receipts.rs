use lumen::receipts::{allowed_extension, fresh_receipt_name, is_receipt_category,
    receipt_allowed, receipt_file_name, receipts_dir};

#[test]
fn gate_accepts_the_designated_category_for_expenses() {
    assert!(receipt_allowed("expense", Some("ЖКХ")));
    assert!(receipt_allowed("expense", Some("жкх")));
    assert!(receipt_allowed("expense", Some(" ЖКХ ")));
}

#[test]
fn gate_rejects_income_and_other_categories() {
    assert!(!receipt_allowed("income", Some("ЖКХ")));
    assert!(!receipt_allowed("income", Some("жкх")));
    assert!(!receipt_allowed("expense", Some("Food")));
    assert!(!receipt_allowed("expense", None));
}

#[test]
fn category_match_is_trimmed_and_case_insensitive() {
    assert!(is_receipt_category("ЖКХ"));
    assert!(is_receipt_category("жкх"));
    assert!(is_receipt_category(" ЖКХ "));
    assert!(is_receipt_category("Жкх"));
    assert!(!is_receipt_category("коммуналка"));
    assert!(!is_receipt_category(""));
}

#[test]
fn extensions_come_from_the_allow_list_lowercased() {
    assert_eq!(allowed_extension("photo.JPG"), Some("jpg".to_string()));
    assert_eq!(allowed_extension("scan.jpeg"), Some("jpeg".to_string()));
    assert_eq!(allowed_extension("pic.PnG"), Some("png".to_string()));
    assert_eq!(allowed_extension("pic.webp"), Some("webp".to_string()));
    assert_eq!(allowed_extension("shot.HEIC"), Some("heic".to_string()));
    assert_eq!(allowed_extension("a.b.png"), Some("png".to_string()));
}

#[test]
fn unlisted_or_missing_extensions_are_refused() {
    assert_eq!(allowed_extension("doc.pdf"), None);
    assert_eq!(allowed_extension("noext"), None);
    assert_eq!(allowed_extension(".gitignore"), None);
    assert_eq!(allowed_extension("dir.png/file"), None);
    assert_eq!(allowed_extension("file."), None);
}

#[test]
fn stored_names_carry_prefix_timestamp_and_extension() {
    assert_eq!(
        receipt_file_name(1700000000123, Some("bill.PNG")),
        "receipt-1700000000123.png"
    );
    assert_eq!(receipt_file_name(5, Some("bill.pdf")), "receipt-5.jpg");
    assert_eq!(receipt_file_name(5, None), "receipt-5.jpg");
    assert_eq!(receipt_file_name(-42, Some("x.webp")), "receipt--42.webp");
}

#[test]
fn fresh_names_use_the_clock() {
    let name = fresh_receipt_name(Some("bill.png"));
    assert!(name.starts_with("receipt-"));
    assert!(name.ends_with(".png"));
}

#[test]
fn receipts_live_under_the_data_directory() {
    assert_eq!(receipts_dir(), "data/receipts");
}
