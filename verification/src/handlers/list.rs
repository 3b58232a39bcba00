//! Listing a directory.
use vstd::prelude::*;
use super::{Entry, ErrorReason, Verdict};
use crate::strings::{
    holds, lemma_split_append_piece, lemma_split_without_sep, push_all, push_char, split_seq,
};

verus! {

/// The path prefix of the lister.
pub const BASE: &'static str = "/api/directory";

/// The method of the lister.
pub const METHOD: &'static str = "GET";

/// The lister's verdict on what the metadata says: only a directory is
/// listed; an entry without metadata is a general failure, anything else a
/// file.
pub open spec fn list_decision(entry: Entry) -> Verdict {
    match entry {
        Entry::Missing => Verdict::Reject(ErrorReason::GeneralFailure),
        Entry::Directory => Verdict::CheckContainment,
        _ => Verdict::Reject(ErrorReason::IsFile),
    }
}

/// The lister's verdict, as `list_decision` gives it.
pub fn list_verdict(entry: Entry) -> (r: Verdict)
    ensures
        r == list_decision(entry),
{
    match entry {
        Entry::Missing => Verdict::Reject(ErrorReason::GeneralFailure),
        Entry::Directory => Verdict::CheckContainment,
        _ => Verdict::Reject(ErrorReason::IsFile),
    }
}

/// Names joined by newlines, without a newline at the end.
pub open spec fn joined_lines(names: Seq<Seq<char>>) -> Seq<char>
    decreases names.len(),
{
    if names.len() == 0 {
        Seq::empty()
    } else if names.len() == 1 {
        names[0]
    } else {
        joined_lines(names.drop_last()) + seq!['\n'] + names.last()
    }
}

/// The body of a listing: the entry names, one per line.
pub fn listing_body(names: &Vec<String>) -> (r: String)
    ensures
        r@ == joined_lines(names@.map_values(|s: String| s@)),
{
    let ghost all = names@.map_values(|s: String| s@);
    let mut out = String::new();
    let mut i: usize = 0;
    while i < names.len()
        invariant
            all == names@.map_values(|s: String| s@),
            i <= names@.len(),
            out@ == joined_lines(all.take(i as int)),
        decreases names@.len() - i,
    {
        proof {
            assert(all.take(i + 1).drop_last() =~= all.take(i as int));
            assert(all.take(i + 1).last() == names@[i as int]@);
        }
        if i > 0 {
            push_char(&mut out, '\n');
        }
        push_all(&mut out, names[i].as_str());
        proof {
            if i == 0 {
                assert(all.take(0) =~= Seq::<Seq<char>>::empty());
                assert(out@ =~= joined_lines(all.take(1)));
            } else {
                assert(out@ =~= joined_lines(all.take(i + 1)));
            }
        }
        i = i + 1;
    }
    proof {
        assert(all.take(names@.len() as int) =~= all);
    }
    out
}

/// A listing gives back its names: where no name holds a newline, cutting
/// the body at its newlines yields the names, one line each, in order.
pub proof fn listing_splits_into_names(names: Seq<Seq<char>>)
    requires
        names.len() > 0,
        forall|i: int| 0 <= i < names.len() ==> !holds(#[trigger] names[i], '\n'),
    ensures
        split_seq(joined_lines(names), '\n') == names,
    decreases names.len(),
{
    if names.len() == 1 {
        lemma_split_without_sep(names[0], '\n');
        assert(seq![names[0]] =~= names);
    } else {
        let rest = names.drop_last();
        assert forall|i: int| 0 <= i < rest.len() implies !holds(#[trigger] rest[i], '\n') by {
            assert(rest[i] == names[i]);
        }
        listing_splits_into_names(rest);
        assert(!holds(names[names.len() - 1], '\n'));
        lemma_split_append_piece(joined_lines(rest), '\n', names.last());
        assert(rest.push(names.last()) =~= names);
    }
}

} // verus!
