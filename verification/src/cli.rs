//! The command line's choice of output.
use vstd::prelude::*;
use crate::text_util::owned;

verus! {

/// What the command line writes.
#[derive(Debug, Clone, Copy, PartialEq, Eq, Structural)]
pub enum OutputMode {
    Text,
    Markdown,
    CompactJson,
    PrettyJson,
}

/// The output mode that the flags ask for: `--text` and `--markdown`
/// exclude each other; `--compact` matters for JSON only.
pub open spec fn output_mode_spec(text: bool, markdown: bool, compact: bool) -> Result<
    OutputMode,
    Seq<char>,
> {
    if text && markdown {
        Err("--text and --markdown are mutually exclusive"@)
    } else if text {
        Ok(OutputMode::Text)
    } else if markdown {
        Ok(OutputMode::Markdown)
    } else if compact {
        Ok(OutputMode::CompactJson)
    } else {
        Ok(OutputMode::PrettyJson)
    }
}

/// Choose the output from the command-line flags.
pub fn output_mode(text: bool, markdown: bool, compact: bool) -> (r: Result<OutputMode, String>)
    ensures
        match r {
            Ok(m) => output_mode_spec(text, markdown, compact) == Ok::<OutputMode, Seq<char>>(m),
            Err(e) => output_mode_spec(text, markdown, compact) == Err::<OutputMode, Seq<char>>(e@),
        },
{
    if text && markdown {
        return Err(owned("--text and --markdown are mutually exclusive"));
    }
    if text {
        Ok(OutputMode::Text)
    } else if markdown {
        Ok(OutputMode::Markdown)
    } else if compact {
        Ok(OutputMode::CompactJson)
    } else {
        Ok(OutputMode::PrettyJson)
    }
}

} // verus!
