use errat::pdf::{append_decimal, append_zero_padded, build_pdf_document, pdf_escape};

#[test]
fn escape_puts_a_backslash_before_parentheses_and_backslashes() {
    assert_eq!(pdf_escape(b"plain text 95%"), b"plain text 95%".to_vec());
    assert_eq!(pdf_escape(b"(a)"), b"\\(a\\)".to_vec());
    assert_eq!(pdf_escape(b"a\\b"), b"a\\\\b".to_vec());
    assert_eq!(pdf_escape(b"\\(\\)"), b"\\\\\\(\\\\\\)".to_vec());
    assert_eq!(pdf_escape(b""), Vec::<u8>::new());
    assert_eq!(
        pdf_escape("resolutions (2.5 to 3A)".as_bytes()),
        b"resolutions \\(2.5 to 3A\\)".to_vec()
    );
    // bytes of other characters pass unchanged
    assert_eq!(pdf_escape("\u{e9}(".as_bytes()), "\u{e9}\\(".as_bytes().to_vec());
}

#[test]
fn decimal_digits() {
    let mut buf = b"n=".to_vec();
    append_decimal(&mut buf, 0);
    buf.push(b' ');
    append_decimal(&mut buf, 7);
    buf.push(b' ');
    append_decimal(&mut buf, 10);
    buf.push(b' ');
    append_decimal(&mut buf, 1234567890);
    buf.push(b' ');
    append_decimal(&mut buf, u128::MAX);
    assert_eq!(
        buf,
        b"n=0 7 10 1234567890 340282366920938463463374607431768211455".to_vec()
    );
}

#[test]
fn zero_padded_digits() {
    let mut buf = Vec::new();
    append_zero_padded(&mut buf, 15, 10);
    buf.push(b' ');
    append_zero_padded(&mut buf, 0, 3);
    buf.push(b' ');
    append_zero_padded(&mut buf, 12345, 3);
    buf.push(b' ');
    append_zero_padded(&mut buf, 42, 0);
    buf.push(b' ');
    append_zero_padded(&mut buf, 9999999999, 10);
    assert_eq!(buf, b"0000000015 000 12345 42 9999999999".to_vec());
}

#[test]
fn document_without_pages() {
    let doc = build_pdf_document(&Vec::new());
    let expected = "%PDF-1.4\n%????\n1 0 obj\n<< /Type /Catalog /Pages 2 0 R >>\nendobj\n2 0 obj\n<< /Type /Pages /Kids [] /Count 0 >>\nendobj\n3 0 obj\n<< /Type /Font /Subtype /Type1 /BaseFont /Helvetica >>\nendobj\nxref\n0 4\n0000000000 65535 f \n0000000015 00000 n \n0000000064 00000 n \n0000000116 00000 n \ntrailer\n<< /Size 4 /Root 1 0 R >>\nstartxref\n186\n%%EOF\n";
    assert_eq!(String::from_utf8(doc).unwrap(), expected);
}

#[test]
fn document_with_one_page() {
    let doc = build_pdf_document(&vec![b"q\nQ\n".to_vec()]);
    let expected = "%PDF-1.4\n%????\n1 0 obj\n<< /Type /Catalog /Pages 2 0 R >>\nendobj\n2 0 obj\n<< /Type /Pages /Kids [4 0 R ] /Count 1 >>\nendobj\n3 0 obj\n<< /Type /Font /Subtype /Type1 /BaseFont /Helvetica >>\nendobj\n4 0 obj\n<< /Type /Page /Parent 2 0 R /MediaBox [0 0 612 792] /Resources << /Font << /F1 3 0 R >> >> /Contents 5 0 R >>\nendobj\n5 0 obj\n<< /Length 5 >>\nstream\nq\nQ\n\nendstream\nendobj\nxref\n0 6\n0000000000 65535 f \n0000000015 00000 n \n0000000064 00000 n \n0000000122 00000 n \n0000000192 00000 n \n0000000318 00000 n \ntrailer\n<< /Size 6 /Root 1 0 R >>\nstartxref\n371\n%%EOF\n";
    assert_eq!(String::from_utf8(doc).unwrap(), expected);
}

#[test]
fn document_with_two_pages() {
    let doc = build_pdf_document(&vec![b"BT (a) Tj ET\n".to_vec(), Vec::new()]);
    let expected = "%PDF-1.4\n%????\n1 0 obj\n<< /Type /Catalog /Pages 2 0 R >>\nendobj\n2 0 obj\n<< /Type /Pages /Kids [4 0 R 5 0 R ] /Count 2 >>\nendobj\n3 0 obj\n<< /Type /Font /Subtype /Type1 /BaseFont /Helvetica >>\nendobj\n4 0 obj\n<< /Type /Page /Parent 2 0 R /MediaBox [0 0 612 792] /Resources << /Font << /F1 3 0 R >> >> /Contents 6 0 R >>\nendobj\n5 0 obj\n<< /Type /Page /Parent 2 0 R /MediaBox [0 0 612 792] /Resources << /Font << /F1 3 0 R >> >> /Contents 7 0 R >>\nendobj\n6 0 obj\n<< /Length 14 >>\nstream\nBT (a) Tj ET\n\nendstream\nendobj\n7 0 obj\n<< /Length 1 >>\nstream\n\nendstream\nendobj\nxref\n0 8\n0000000000 65535 f \n0000000015 00000 n \n0000000064 00000 n \n0000000128 00000 n \n0000000198 00000 n \n0000000324 00000 n \n0000000450 00000 n \n0000000513 00000 n \ntrailer\n<< /Size 8 /Root 1 0 R >>\nstartxref\n562\n%%EOF\n";
    assert_eq!(String::from_utf8(doc).unwrap(), expected);
}

#[test]
fn every_offset_points_at_its_object() {
    let pages: Vec<Vec<u8>> = (0..12).map(|k| vec![b'x'; 37 * k]).collect();
    let doc = build_pdf_document(&pages);
    let text = String::from_utf8(doc.clone()).unwrap();
    let xref = text.rfind("\nxref\n").unwrap() + 1;
    assert!(text.ends_with(&format!("startxref\n{}\n%%EOF\n", xref)));
    let lines: Vec<&str> = text[xref..].lines().collect();
    assert_eq!(lines[1], "0 28");
    assert_eq!(lines[2], "0000000000 65535 f ");
    for id in 1..=27 {
        let entry = lines[2 + id];
        assert_eq!(entry.len(), 19);
        assert_eq!(&entry[10..], " 00000 n ");
        let offset: usize = entry[..10].parse().unwrap();
        assert!(doc[offset..].starts_with(format!("{} 0 obj\n", id).as_bytes()));
    }
}
