use inline_graphics::latex::latex_error;
use inline_graphics::utils::{char_height_from, equation_document, DEFAULT_CHAR_HEIGHT};

#[test]
fn latex_log_reason_element_and_line() {
    let log = "This is pdfTeX\n! Undefined control sequence.\nl.5 $$\\foo\n                {x}\n! Emergency stop.\nNo pages of output.";
    let (reason, element, line) = latex_error(log);
    assert_eq!(reason, "! Undefined control sequence.");
    assert_eq!(element, "$$\\foo");
    assert_eq!(line, 5);
}

#[test]
fn latex_log_without_error_lines() {
    let (reason, element, line) = latex_error("all fine\n");
    assert_eq!(reason, "");
    assert_eq!(element, "");
    assert_eq!(line, usize::MAX);
}

#[test]
fn latex_log_last_lines_win() {
    let log = "! First.\nl.2 a\n! Second.\nl.x  b  \nl.+7\n";
    let (reason, element, line) = latex_error(log);
    assert_eq!(reason, "! Second.");
    assert_eq!(element, "b");
    assert_eq!(line, 7);
}

#[test]
fn cell_height() {
    assert_eq!(char_height_from(600, 30), 20);
    assert_eq!(char_height_from(2, 30), DEFAULT_CHAR_HEIGHT);
    assert_eq!(char_height_from(600, 0), 28);
}

#[test]
fn equation_template() {
    let doc = equation_document("x^2");
    assert!(doc.starts_with("\\documentclass[20pt, preview]{standalone}\n"));
    assert!(doc.ends_with("$$\nx^2$$\n\\end{document}"));
}

use inline_graphics::content::{conversion_for, file_conversion, ContentType, FileConversion, Preparation};

#[test]
fn preparation_by_kind() {
    assert_eq!(ContentType::Math.preparation(), Preparation::Equation);
    assert_eq!(ContentType::Tex.preparation(), Preparation::Typeset);
    assert_eq!(ContentType::Gnuplot.preparation(), Preparation::Plot);
    assert_eq!(ContentType::File.preparation(), Preparation::Missing);
}

#[test]
fn file_conversion_by_extension() {
    assert_eq!(file_conversion("docs/fig.tex"), FileConversion::Typeset);
    assert_eq!(file_conversion("plots/sine.plt"), FileConversion::Plot);
    assert_eq!(file_conversion("a/b.png"), FileConversion::Image);
    assert_eq!(file_conversion("a.tex.png"), FileConversion::Image);
    assert_eq!(file_conversion("dir/.tex"), FileConversion::Image);
    assert_eq!(file_conversion("noext"), FileConversion::Image);
    assert_eq!(conversion_for(Some("plt")), FileConversion::Plot);
    assert_eq!(conversion_for(Some("tex")), FileConversion::Typeset);
    assert_eq!(conversion_for(Some("texx")), FileConversion::Image);
    assert_eq!(conversion_for(None), FileConversion::Image);
}
