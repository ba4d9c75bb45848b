//! Reading the positional arguments of a run: requested slices and the OS.
use crate::version::{extract_name_and_version, name_part, version_part};
use crate::{RequestedSlice, SliceError, VersionMatchStrategy};
use vstd::prelude::*;

verus! {

/// Takes the first argument, or `default_value` where there is none.
pub fn pop_first_argument_or_take_default(arguments: &mut Vec<String>, default_value: String) -> (r:
    String)
    ensures
        old(arguments)@.len() == 0 ==> r == default_value && final(arguments)@ == old(arguments)@,
        old(arguments)@.len() > 0 ==> r == old(arguments)@[0] && final(arguments)@ == old(
            arguments,
        )@.drop_first(),
{
    if arguments.len() == 0 {
        default_value
    } else {
        let r = arguments.remove(0);
        assert(arguments@ =~= old(arguments)@.drop_first());
        r
    }
}

/// The pieces of a text between commas.
pub open spec fn comma_parts(s: Seq<char>) -> Seq<Seq<char>>
    decreases s.len(),
{
    if s.len() == 0 {
        seq![Seq::empty()]
    } else {
        let parts = comma_parts(s.drop_last());
        if s.last() == ',' {
            parts.push(Seq::empty())
        } else {
            parts.update(parts.len() - 1, parts.last().push(s.last()))
        }
    }
}

proof fn lemma_comma_parts_len(s: Seq<char>)
    ensures
        comma_parts(s).len() >= 1,
    decreases s.len(),
{
    if s.len() > 0 {
        lemma_comma_parts_len(s.drop_last());
    }
}

/// The slices a comma-separated list of `name[-version]` tokens requests,
/// each matched at its version or a greater one.
pub open spec fn requests_ok(parts: Seq<Seq<char>>, r: Seq<RequestedSlice>) -> bool {
    &&& r.len() == parts.len()
    &&& forall|k: int|
        0 <= k < parts.len() ==> #[trigger] r[k].name@ == name_part(parts[k]) && r[k].version@
            == version_part(parts[k])->0 && r[k].version_match_strategy
            == VersionMatchStrategy::ExactOrGreater
}

fn request_of(token: &str) -> (r: Result<RequestedSlice, SliceError>)
    ensures
        r is Ok <==> version_part(token@) is Some,
        r matches Ok(q) ==> q.name@ == name_part(token@) && q.version@ == version_part(token@)->0
            && q.version_match_strategy == VersionMatchStrategy::ExactOrGreater,
        r matches Err(e) ==> e == SliceError::InvalidVersion,
{
    match extract_name_and_version(token) {
        Ok((name, version)) => Ok(
            RequestedSlice { name, version, version_match_strategy: VersionMatchStrategy::ExactOrGreater },
        ),
        Err(e) => Err(e),
    }
}

proof fn lemma_requests_push(parts: Seq<Seq<char>>, r: Seq<RequestedSlice>, p: Seq<char>, q: RequestedSlice)
    requires
        requests_ok(parts, r),
        q.name@ == name_part(p) && q.version@ == version_part(p)->0 && q.version_match_strategy
            == VersionMatchStrategy::ExactOrGreater,
    ensures
        requests_ok(parts.push(p), r.push(q)),
{
    assert forall|k: int| 0 <= k < parts.push(p).len() implies #[trigger] r.push(q)[k].name@ == name_part(
        parts.push(p)[k],
    ) && r.push(q)[k].version@ == version_part(parts.push(p)[k])->0 && r.push(q)[k].version_match_strategy
        == VersionMatchStrategy::ExactOrGreater by {
        if k < parts.len() {
            assert(r.push(q)[k] == r[k]);
            assert(parts.push(p)[k] == parts[k]);
            assert(r[k].name@ == name_part(parts[k]));
        } else {
            assert(r.push(q)[k] == q);
            assert(parts.push(p)[k] == p);
        }
    }
}

/// Reads the requested slices from a comma-separated argument such as
/// `jekyll,ruby-2.2`; an error where a token's version is invalid.
pub fn requested_slices_from_argument(argument: &str) -> (r: Result<Vec<RequestedSlice>, SliceError>)
    ensures
        r is Ok <==> forall|k: int|
            0 <= k < comma_parts(argument@).len() ==> (#[trigger] version_part(
                comma_parts(argument@)[k],
            )) is Some,
        r matches Ok(v) ==> requests_ok(comma_parts(argument@), v@),
        r matches Err(e) ==> e == SliceError::InvalidVersion,
{
    let ghost s = argument@;
    let n = argument.unicode_len();
    let mut result: Vec<RequestedSlice> = Vec::new();
    let ghost mut done: Seq<Seq<char>> = Seq::empty();
    let mut start: usize = 0;
    let mut i: usize = 0;
    assert(s.subrange(0, 0) =~= Seq::<char>::empty());
    assert(comma_parts(s.subrange(0, 0)) =~= seq![Seq::<char>::empty()]);
    assert(comma_parts(s.subrange(0, 0)).drop_last() =~= done);
    while i < n
        invariant
            n == s.len(),
            s == argument@,
            start <= i <= n,
            comma_parts(s.subrange(0, i as int)).len() >= 1,
            comma_parts(s.subrange(0, i as int)).last() == s.subrange(start as int, i as int),
            comma_parts(s.subrange(0, i as int)).drop_last() == done,
            requests_ok(done, result@),
            forall|k: int| 0 <= k < done.len() ==> (#[trigger] version_part(done[k])) is Some,
        decreases n - i,
    {
        let ghost pre = s.subrange(0, i as int);
        let ghost next = s.subrange(0, i + 1);
        assert(next.drop_last() =~= pre);
        proof {
            lemma_comma_parts_len(next);
        }
        if argument.get_char(i) == ',' {
            let token = argument.substring_char(start, i);
            match request_of(token) {
                Err(e) => {
                    proof {
                        lemma_parts_prefix_stable(s, i + 1);
                        assert(comma_parts(next)[done.len() as int] == token@);
                        assert(comma_parts(s)[done.len() as int] == token@);
                    }
                    return Err(e);
                },
                Ok(q) => {
                    proof {
                        lemma_requests_push(done, result@, token@, q);
                    }
                    result.push(q);
                },
            }
            proof {
                done = done.push(token@);
                assert(comma_parts(next).drop_last() =~= done);
                assert(s.subrange(i + 1, i + 1) =~= Seq::<char>::empty());
            }
            start = i + 1;
        } else {
            assert(s.subrange(start as int, i + 1) =~= s.subrange(start as int, i as int).push(s[i as int]));
            assert(comma_parts(next).drop_last() =~= comma_parts(pre).drop_last());
        }
        i = i + 1;
    }
    assert(s.subrange(0, n as int) =~= s);
    let token = argument.substring_char(start, n);
    assert(comma_parts(s) =~= done.push(token@));
    match request_of(token) {
        Err(e) => {
            assert(comma_parts(s)[done.len() as int] == token@);
            Err(e)
        },
        Ok(q) => {
            proof {
                lemma_requests_push(done, result@, token@, q);
            }
            result.push(q);
            Ok(result)
        },
    }
}

/// Extending a text keeps every piece of its prefix but the last.
proof fn lemma_parts_prefix_stable(s: Seq<char>, m: int)
    requires
        0 <= m <= s.len(),
    ensures
        comma_parts(s.subrange(0, m)).len() <= comma_parts(s).len(),
        forall|k: int|
            0 <= k < comma_parts(s.subrange(0, m)).len() - 1 ==> #[trigger] comma_parts(s)[k]
                == comma_parts(s.subrange(0, m))[k],
    decreases s.len() - m,
{
    lemma_comma_parts_len(s.subrange(0, m));
    if m < s.len() {
        let a = s.subrange(0, m);
        let b = s.subrange(0, m + 1);
        assert(b.drop_last() =~= a);
        lemma_parts_prefix_stable(s, m + 1);
        lemma_comma_parts_len(b);
    } else {
        assert(s.subrange(0, m) =~= s);
    }
}

} // verus!
