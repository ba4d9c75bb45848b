//! Shell syntax: one command per line.
use crate::slice::{items_or_empty, Slice};
use crate::section::Kind;
use crate::text::texts_view;
use vstd::prelude::*;

verus! {

/// Each command followed by a line break.
pub open spec fn shell_code(commands: Seq<Seq<char>>) -> Seq<char>
    decreases commands.len(),
{
    if commands.len() == 0 {
        Seq::empty()
    } else {
        shell_code(commands.drop_last()) + commands.last() + "\n"@
    }
}

/// Writes a slice's commands as shell lines.
pub fn generate_code(slice: &Slice) -> (r: String)
    ensures
        r@ == shell_code(items_or_empty(slice@.sections, Kind::Run)),
{
    let preparations = slice.preparations();
    let ghost p = texts_view(preparations@);
    let mut code = String::new();
    let mut k: usize = 0;
    assert(p.subrange(0, 0) =~= Seq::<Seq<char>>::empty());
    while k < preparations.len()
        invariant
            p == texts_view(preparations@),
            k <= p.len(),
            code@ == shell_code(p.subrange(0, k as int)),
        decreases preparations.len() - k,
    {
        assert(p.subrange(0, k + 1).drop_last() =~= p.subrange(0, k as int));
        code.append(preparations[k].as_str());
        code.append("\n");
        k = k + 1;
    }
    assert(p.subrange(0, k as int) =~= p);
    code
}

} // verus!
