//! The store's read-modify-write step on the stored text. Whoever owns the
//! backing file runs it under one lock, so that appends apply one at a time.
use vstd::prelude::*;
use crate::document::{decode, lemma_round_trip, render, DecodeError, IntegerDocument};

verus! {

/// The integers that a stored text holds: an empty text holds none.
pub open spec fn stored_integers(t: Seq<u8>) -> Option<Seq<i32>> {
    if t.len() == 0 {
        Some(Seq::<i32>::empty())
    } else {
        decode(t)
    }
}

/// The text that replaces `t` once `v` is appended, or none where `t` holds
/// no document.
pub open spec fn appended_text(t: Seq<u8>, v: i32) -> Option<Seq<u8>> {
    match stored_integers(t) {
        Some(s) => Some(render(s.push(v))),
        None => None,
    }
}

/// The text after appending each of `values` in turn, from `t`.
pub open spec fn appended_all(t: Seq<u8>, values: Seq<i32>) -> Option<Seq<u8>>
    decreases values.len(),
{
    if values.len() == 0 {
        Some(t)
    } else {
        match appended_all(t, values.drop_last()) {
            Some(u) => appended_text(u, values.last()),
            None => None,
        }
    }
}

/// Reads the stored text; an empty text is the empty document.
pub fn read_document(contents: &[u8]) -> (r: Result<IntegerDocument, DecodeError>)
    ensures
        match r {
            Ok(d) => stored_integers(contents@) == Some(d@),
            Err(_) => stored_integers(contents@) is None,
        },
{
    if contents.len() == 0 {
        Ok(IntegerDocument::new())
    } else {
        IntegerDocument::from_json(contents)
    }
}

/// Appends `value` to the document that `contents` holds and returns the
/// whole text that replaces it.
pub fn apply_append(contents: &[u8], value: i32) -> (r: Result<Vec<u8>, DecodeError>)
    ensures
        match r {
            Ok(t) => appended_text(contents@, value) == Some(t@),
            Err(_) => appended_text(contents@, value) is None,
        },
{
    let mut doc = read_document(contents)?;
    doc.append(value);
    Ok(doc.to_json())
}

/// Appends applied one after another lose none: from a text holding `s`,
/// appending `values` in turn leaves a text holding `s` followed by
/// `values`, one more element for each append.
pub proof fn lemma_no_lost_updates(t: Seq<u8>, s: Seq<i32>, values: Seq<i32>)
    requires
        stored_integers(t) == Some(s),
    ensures
        appended_all(t, values) is Some,
        stored_integers(appended_all(t, values)->Some_0) == Some(s + values),
        (s + values).len() == s.len() + values.len(),
    decreases values.len(),
{
    if values.len() == 0 {
        assert(s + values =~= s);
    } else {
        let p = values.drop_last();
        lemma_no_lost_updates(t, s, p);
        let u = appended_all(t, p)->Some_0;
        let next = (s + p).push(values.last());
        lemma_round_trip(next);
        assert(render(next).len() > 0);
        assert(next =~= s + values);
    }
}

/// Reading leaves the stored text as it was: a text that the store wrote
/// reads back as the integers it was written from, and writing those again
/// gives the same text.
pub proof fn lemma_read_keeps_text(s: Seq<i32>)
    ensures
        stored_integers(render(s)) == Some(s),
        render(stored_integers(render(s))->Some_0) == render(s),
{
    lemma_round_trip(s);
    assert(render(s).len() > 0);
}

} // verus!
