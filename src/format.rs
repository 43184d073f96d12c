//! The input and output formats, told apart by file extension.

use vstd::prelude::*;

verus! {

/// The extension of the last component of a path, as `std::path::Path::extension` reads it.
pub uninterp spec fn path_extension(path: Seq<char>) -> Option<Seq<char>>;

/// Relies on `std::path::Path::extension`: the text after the last dot of the file name,
/// if the name has one that does not start it.
#[verifier::external_body]
fn extension_of(path: &str) -> (r: Option<String>)
    ensures
        match r {
            Some(e) => path_extension(path@) == Some(e@),
            None => path_extension(path@) is None,
        },
{
    match std::path::Path::new(path).extension() {
        Some(e) => e.to_str().map(String::from),
        None => None,
    }
}

fn is_text(s: &String, lit: &str) -> (r: bool)
    ensures
        r == (s@ == lit@),
{
    *s == String::from_str(lit)
}

/// The formats a collection can be read from.
#[derive(Debug, Clone, Copy, PartialEq, Eq, Structural)]
pub enum InputFormat {
    Json,
    Xml,
    Markdown,
    Html,
}

pub open spec fn input_format_of(ext: Option<Seq<char>>) -> Option<InputFormat> {
    match ext {
        Some(e) => if e == "json"@ {
            Some(InputFormat::Json)
        } else if e == "xml"@ {
            Some(InputFormat::Xml)
        } else if e == "md"@ {
            Some(InputFormat::Markdown)
        } else if e == "html"@ {
            Some(InputFormat::Html)
        } else {
            None
        },
        None => None,
    }
}

impl InputFormat {
    /// The input format a path's extension names.
    pub fn detect(path: &str) -> (r: Option<InputFormat>)
        ensures
            r == input_format_of(path_extension(path@)),
    {
        let ext = match extension_of(path) {
            Some(e) => e,
            None => {
                return None;
            },
        };
        if is_text(&ext, "json") {
            Some(InputFormat::Json)
        } else if is_text(&ext, "xml") {
            Some(InputFormat::Xml)
        } else if is_text(&ext, "md") {
            Some(InputFormat::Markdown)
        } else if is_text(&ext, "html") {
            Some(InputFormat::Html)
        } else {
            None
        }
    }

    /// The format's name on the command line.
    pub fn name(&self) -> (r: &'static str)
        ensures
            r@ == match self {
                InputFormat::Json => "json"@,
                InputFormat::Xml => "xml"@,
                InputFormat::Markdown => "md"@,
                InputFormat::Html => "html"@,
            },
    {
        match self {
            InputFormat::Json => "json",
            InputFormat::Xml => "xml",
            InputFormat::Markdown => "md",
            InputFormat::Html => "html",
        }
    }
}

/// The formats a collection can be written to.
#[derive(Debug, Clone, Copy, PartialEq, Eq, Structural)]
pub enum OutputFormat {
    Html,
    Yaml,
}

pub open spec fn output_format_of(ext: Option<Seq<char>>) -> Option<OutputFormat> {
    match ext {
        Some(e) => if e == "html"@ {
            Some(OutputFormat::Html)
        } else if e == "yaml"@ || e == "yml"@ {
            Some(OutputFormat::Yaml)
        } else {
            None
        },
        None => None,
    }
}

impl OutputFormat {
    /// The output format a path's extension names.
    pub fn detect(path: &str) -> (r: Option<OutputFormat>)
        ensures
            r == output_format_of(path_extension(path@)),
    {
        let ext = match extension_of(path) {
            Some(e) => e,
            None => {
                return None;
            },
        };
        if is_text(&ext, "html") {
            Some(OutputFormat::Html)
        } else if is_text(&ext, "yaml") || is_text(&ext, "yml") {
            Some(OutputFormat::Yaml)
        } else {
            None
        }
    }

    /// The format's name on the command line.
    pub fn name(&self) -> (r: &'static str)
        ensures
            r@ == match self {
                OutputFormat::Html => "html"@,
                OutputFormat::Yaml => "yaml"@,
            },
    {
        match self {
            OutputFormat::Html => "html",
            OutputFormat::Yaml => "yaml",
        }
    }
}

} // verus!
