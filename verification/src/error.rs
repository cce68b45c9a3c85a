use vstd::prelude::*;
use vstd::string::StringExecFns;

verus! {

#[verifier::external_type_specification]
#[verifier::external_body]
pub struct ExIoError(std::io::Error);

/// The ways in which detecting fields can fail.
pub enum Error {
    ModelLoad(String),
    Inference(String),
    PdfOpen(String),
    PdfRender(String),
    ImageProcess(String),
    Io(std::io::Error),
}

/// The text that introduces each kind of error in its message.
pub open spec fn error_prefix(e: Error) -> Seq<char> {
    match e {
        Error::ModelLoad(_) => "Model loading failed: "@,
        Error::Inference(_) => "Inference failed: "@,
        Error::PdfOpen(_) => "PDF open failed: "@,
        Error::PdfRender(_) => "PDF render failed: "@,
        Error::ImageProcess(_) => "Image processing failed: "@,
        Error::Io(_) => "I/O error: "@,
    }
}

impl Error {
    /// The human-readable message of the error: its kind's prefix followed by
    /// the detail it carries (for an I/O error, the error's own display text).
    pub fn message(&self) -> (m: String)
        ensures
            match self {
                Error::ModelLoad(s) => m@ == error_prefix(*self) + s@,
                Error::Inference(s) => m@ == error_prefix(*self) + s@,
                Error::PdfOpen(s) => m@ == error_prefix(*self) + s@,
                Error::PdfRender(s) => m@ == error_prefix(*self) + s@,
                Error::ImageProcess(s) => m@ == error_prefix(*self) + s@,
                Error::Io(e) => exists|d: String|
                    vstd::string::to_string_from_display_ensures::<std::io::Error>(e, d)
                        && m@ == error_prefix(*self) + d@,
            },
    {
        match self {
            Error::ModelLoad(s) => String::from_str("Model loading failed: ").concat(s.as_str()),
            Error::Inference(s) => String::from_str("Inference failed: ").concat(s.as_str()),
            Error::PdfOpen(s) => String::from_str("PDF open failed: ").concat(s.as_str()),
            Error::PdfRender(s) => String::from_str("PDF render failed: ").concat(s.as_str()),
            Error::ImageProcess(s) => String::from_str("Image processing failed: ").concat(
                s.as_str(),
            ),
            Error::Io(e) => {
                let d = e.to_string();
                String::from_str("I/O error: ").concat(d.as_str())
            },
        }
    }
}

} // verus!
