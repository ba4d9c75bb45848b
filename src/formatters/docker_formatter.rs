//! Container-build syntax: `FROM` lines, then one `RUN` joining the commands.
use crate::slice::{items_or_empty, Slice};
use crate::section::Kind;
use crate::text::texts_view;
use vstd::prelude::*;

verus! {

/// One `FROM <base>` line per base image.
pub open spec fn from_lines(bases: Seq<Seq<char>>) -> Seq<char>
    decreases bases.len(),
{
    if bases.len() == 0 {
        Seq::empty()
    } else {
        from_lines(bases.drop_last()) + "FROM "@ + bases.last() + "\n"@
    }
}

/// The items joined by `sep`.
pub open spec fn joined(items: Seq<Seq<char>>, sep: Seq<char>) -> Seq<char>
    decreases items.len(),
{
    if items.len() == 0 {
        Seq::empty()
    } else if items.len() == 1 {
        items[0]
    } else {
        joined(items.drop_last(), sep) + sep + items.last()
    }
}

/// The `FROM` lines and a blank line where there are base images, then `RUN`
/// with the commands joined by `&&` and a line continuation.
pub open spec fn docker_code(bases: Seq<Seq<char>>, commands: Seq<Seq<char>>) -> Seq<char> {
    (if bases.len() > 0 {
        from_lines(bases) + "\n"@
    } else {
        Seq::empty()
    }) + "RUN "@ + joined(commands, " && \\\n"@) + "\n"@
}

/// Writes a slice's base images and commands in container-build syntax.
pub fn generate_code(slice: &Slice) -> (r: String)
    ensures
        r@ == docker_code(
            items_or_empty(slice@.sections, Kind::From),
            items_or_empty(slice@.sections, Kind::Run),
        ),
{
    let ancestors = slice.ancestors();
    let preparations = slice.preparations();
    let ghost a = texts_view(ancestors@);
    let ghost p = texts_view(preparations@);
    let mut code = String::new();
    let mut i: usize = 0;
    assert(a.subrange(0, 0) =~= Seq::<Seq<char>>::empty());
    while i < ancestors.len()
        invariant
            a == texts_view(ancestors@),
            i <= a.len(),
            code@ == from_lines(a.subrange(0, i as int)),
        decreases ancestors.len() - i,
    {
        assert(a.subrange(0, i + 1).drop_last() =~= a.subrange(0, i as int));
        code.append("FROM ");
        code.append(ancestors[i].as_str());
        code.append("\n");
        i = i + 1;
    }
    assert(a.subrange(0, i as int) =~= a);
    if ancestors.len() > 0 {
        code.append("\n");
    } else {
        assert(code@ =~= Seq::<char>::empty());
    }
    let ghost head = code@;
    code.append("RUN ");
    let mut k: usize = 0;
    assert(p.subrange(0, 0) =~= Seq::<Seq<char>>::empty());
    assert(code@ =~= head + "RUN "@ + joined(p.subrange(0, 0), " && \\\n"@));
    while k < preparations.len()
        invariant
            p == texts_view(preparations@),
            k <= p.len(),
            code@ == head + "RUN "@ + joined(p.subrange(0, k as int), " && \\\n"@),
        decreases preparations.len() - k,
    {
        let ghost sub = p.subrange(0, k + 1);
        assert(sub.drop_last() =~= p.subrange(0, k as int));
        if k > 0 {
            code.append(" && \\\n");
        } else {
            assert(joined(p.subrange(0, 0), " && \\\n"@) =~= Seq::<char>::empty());
        }
        code.append(preparations[k].as_str());
        k = k + 1;
    }
    assert(p.subrange(0, k as int) =~= p);
    code.append("\n");
    code
}

} // verus!
