# autodetect_pdf_fields

Detects fillable fields (text inputs, checkboxes, dates, signatures, numbers)
in PDF pages. A detection model proposes boxes; structural cues from the PDF
(underscores, lines) confirm them; the text before each field decides its
type and a heuristic name.

## Layout

- `src/` — the verified library (Verus):
  - `output.rs` — field types and the model's class ids.
  - `detection/type_classifier.rs` — type classification by the preceding
    text, through the `regex` crate.
  - `detection/orchestrator.rs` — page selection, field annotation, the
    heuristic label, and assembling the text before a field.
  - `model/nms.rs`, `model/nmm.rs` — greedy suppression and merging over
    ranked candidates, with their laws (soundness, completeness, order,
    idempotence; merge heads equal the suppression result, every candidate
    lands in exactly one group).
  - `debug.rs`, `labeler.rs` — drawing boxes and tags on an RGBA canvas
    (the `image` crate), PNG/base64 encoding, the JSON array in a reply,
    applying returned labels, grouping fields by page.
  - `error.rs`, `text.rs` — the error type and character helpers.
- `app/` — the command line and everything that reads files, renders PDF
  pages (pdfium), runs the model (ONNX Runtime), calls the labelling API, or
  computes on floating-point boxes.
- `tests/` — tests of the library.
