//! The two script syntaxes a slice's content can be written in.
pub mod docker_formatter;
pub mod shell_formatter;

use crate::options::Format;
use crate::section::Kind;
use crate::slice::{items_or_empty, Slice, SliceView};
use self::docker_formatter::docker_code;
use self::shell_formatter::shell_code;
use vstd::prelude::*;

verus! {

/// The code of one slice in `format`.
pub open spec fn slice_code(s: SliceView, format: Format) -> Seq<char> {
    match format {
        Format::Docker => docker_code(
            items_or_empty(s.sections, Kind::From),
            items_or_empty(s.sections, Kind::Run),
        ),
        Format::Shell => shell_code(items_or_empty(s.sections, Kind::Run)),
    }
}

/// Writes the code of one slice in `format`.
pub fn generate_code(slice: &Slice, format: &Format) -> (r: String)
    ensures
        r@ == slice_code(slice@, *format),
{
    match format {
        Format::Docker => docker_formatter::generate_code(slice),
        Format::Shell => shell_formatter::generate_code(slice),
    }
}

} // verus!
