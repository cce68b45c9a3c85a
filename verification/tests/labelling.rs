use autodetect_pdf_fields::error::Error;
use autodetect_pdf_fields::labeler::{apply_labels, extract_json_array, group_by_page, reply_text};

#[test]
fn json_array_inside_markdown() {
    let reply = "Here you go:\n```json\n[{\"field_number\": 1, \"name\": \"City\"}]\n```";
    assert_eq!(extract_json_array(reply), "[{\"field_number\": 1, \"name\": \"City\"}]");
}

#[test]
fn json_array_missing_bracket() {
    assert_eq!(extract_json_array("no array here"), "no array here");
    assert_eq!(extract_json_array("[ open only"), "[ open only");
    assert_eq!(extract_json_array("close only ]"), "close only ]");
}

#[test]
fn json_array_nested_takes_outermost() {
    assert_eq!(extract_json_array("x [[1], [2]] y"), "[[1], [2]]");
}

#[test]
fn labels_land_on_page_fields() {
    let mut names = vec![None, Some("old".to_string()), None, None];
    let indices = vec![1, 3];
    let labels = vec![
        (1, "Name".to_string()),
        (2, "Date".to_string()),
        (3, "Ignored".to_string()),
        (0, "Ignored too".to_string()),
    ];
    apply_labels(&mut names, &indices, &labels);
    assert_eq!(names, vec![None, Some("Name".to_string()), None, Some("Date".to_string())]);
}

#[test]
fn later_label_wins() {
    let mut names = vec![None];
    apply_labels(&mut names, &vec![0], &vec![(1, "A".to_string()), (1, "B".to_string())]);
    assert_eq!(names, vec![Some("B".to_string())]);
}

#[test]
fn fields_grouped_by_page() {
    let pages = vec![2, 0, 2, 1, 0];
    let groups = group_by_page(&pages);
    assert_eq!(groups, vec![(2, vec![0, 2]), (0, vec![1, 4]), (1, vec![3])]);
    assert_eq!(group_by_page(&vec![]), Vec::<(usize, Vec<usize>)>::new());
}

#[test]
fn reply_text_joins_blocks() {
    let parts = vec![Some("[{".to_string()), None, Some("}]".to_string())];
    assert_eq!(reply_text(&parts), "[{}]");
}

#[test]
fn error_messages() {
    assert_eq!(Error::ModelLoad("x".to_string()).message(), "Model loading failed: x");
    assert_eq!(Error::Inference("y".to_string()).message(), "Inference failed: y");
    assert_eq!(Error::PdfOpen("z".to_string()).message(), "PDF open failed: z");
    assert_eq!(Error::PdfRender("p".to_string()).message(), "PDF render failed: p");
    assert_eq!(Error::ImageProcess("i".to_string()).message(), "Image processing failed: i");
    let io = std::io::Error::new(std::io::ErrorKind::Other, "disk");
    assert_eq!(Error::Io(io).message(), "I/O error: disk");
}
