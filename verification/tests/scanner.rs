use invoice_printer::scanner::{has_pdf_ext, order_by_file_name};
use std::path::Path;

#[test]
fn pdf_extensions() {
    assert!(has_pdf_ext("f00001.pdf"));
    assert!(has_pdf_ext("F.PDF"));
    assert!(has_pdf_ext("a.b.Pdf"));
    assert!(has_pdf_ext("..pdf"));
    assert!(!has_pdf_ext(".pdf"));
    assert!(!has_pdf_ext("pdf"));
    assert!(!has_pdf_ext("a.pdfx"));
    assert!(!has_pdf_ext("a.pdf.txt"));
    assert!(!has_pdf_ext("a.pd"));
    assert!(!has_pdf_ext(".."));
    assert!(!has_pdf_ext(""));
    assert!(!has_pdf_ext("a."));
}

/// The extension is read as `std::path::Path` reads it.
#[test]
fn agrees_with_std_path() {
    let names = [
        "a.pdf", "A.PdF", ".pdf", "..pdf", "...pdf", "x..pdf", "pdf", "a.pdf.", "a.b", ".", "..", "",
        "报销.pdf", "发票.PDF", "a.ｐdf", "a. pdf", ".hidden.pdf", "noext",
    ];
    for n in names {
        let expected = Path::new(n)
            .extension()
            .and_then(|e| e.to_str())
            .map(|e| e.eq_ignore_ascii_case("pdf"))
            .unwrap_or(false);
        assert_eq!(has_pdf_ext(n), expected, "{n:?}");
    }
}

fn names(list: &[&str]) -> Vec<String> {
    list.iter().map(|s| s.to_string()).collect()
}

#[test]
fn files_in_file_name_order() {
    let n = names(&["c.pdf", "a.pdf", "b.pdf"]);
    assert_eq!(order_by_file_name(&n), vec![1, 2, 0]);
    assert_eq!(order_by_file_name(&names(&[])), Vec::<usize>::new());
    assert_eq!(order_by_file_name(&names(&["only.pdf"])), vec![0]);
    // a proper prefix comes first, and upper case before lower case
    let n = names(&["ab.pdf", "a.pdf", "B.pdf", "a.pdf.pdf"]);
    assert_eq!(order_by_file_name(&n), vec![2, 1, 3, 0]);
}

#[test]
fn equal_names_keep_their_places() {
    let n = names(&["x.pdf", "a.pdf", "x.pdf", "a.pdf", "x.pdf"]);
    assert_eq!(order_by_file_name(&n), vec![1, 3, 0, 2, 4]);
}

/// The order is that of `str`, and stable.
#[test]
fn order_agrees_with_std_sort() {
    let n = names(&[
        "f00010.pdf", "f00002.pdf", "发票.pdf", "报销.pdf", "Z.pdf", "z.pdf", "f00002.pdf", "",
        "\u{10000}.pdf", "\u{ffff}.pdf", "é.pdf", "e.pdf", "f0001.pdf",
    ]);
    let mut expected: Vec<usize> = (0..n.len()).collect();
    expected.sort_by(|&a, &b| n[a].cmp(&n[b]));
    assert_eq!(order_by_file_name(&n), expected);
}
