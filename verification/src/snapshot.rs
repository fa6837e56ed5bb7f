//! The snapshot format: the pairs of a store written as one line of text.
//!
//! A pair is written as its key, a comma and its value; pairs are joined by
//! semicolons. Inside a key or a value a comma, a semicolon or a backslash is
//! written with a backslash before it, so that every text can be stored and
//! read back. The empty text is the snapshot of the empty store.
use vstd::prelude::*;
use crate::pairs::{inserted, lemma_stored_unique, stored, unique_keys};
use crate::text::{chars_of, Text};

verus! {

/// Why a snapshot could not be read.
#[derive(Debug, Clone, Copy, PartialEq, Eq, Structural)]
pub enum ParseError {
    /// The text of a key reads as no key.
    Key,
    /// The text of a value reads as no value.
    Value,
    /// The text is not a sequence of pairs: a pair has no value or too many
    /// fields, or a backslash stands before a character that needs none.
    Malformed,
}

impl ParseError {
    /// The fault in words.
    pub fn message(&self) -> (s: String)
        ensures
            s@ == match *self {
                ParseError::Key => "Key parse error"@,
                ParseError::Value => "Value parse error"@,
                ParseError::Malformed => "Malformed snapshot"@,
            },
    {
        match self {
            ParseError::Key => "Key parse error".to_owned(),
            ParseError::Value => "Value parse error".to_owned(),
            ParseError::Malformed => "Malformed snapshot".to_owned(),
        }
    }
}

/// What ended a field.
#[derive(Debug, Clone, Copy, PartialEq, Eq, Structural)]
pub enum Stop {
    /// The end of the text.
    End,
    /// A comma.
    Comma,
    /// A semicolon.
    Semicolon,
    /// A backslash that is followed by nothing it can stand before.
    Broken,
}

/// A field read from the front of a text.
pub ghost struct Field {
    /// The field's text, with the backslashes taken out.
    pub text: Seq<char>,
    /// What ended the field.
    pub stop: Stop,
    /// What follows the comma or semicolon that ended the field; at a
    /// misplaced backslash, the text from there on.
    pub rest: Seq<char>,
}

/// The characters that are written with a backslash before them.
pub open spec fn is_special(c: char) -> bool {
    c == ',' || c == ';' || c == '\\'
}

/// One character as it stands in a snapshot.
pub open spec fn escaped_char(c: char) -> Seq<char> {
    if is_special(c) {
        seq!['\\', c]
    } else {
        seq![c]
    }
}

/// A text as it stands in a snapshot.
pub open spec fn escaped(t: Seq<char>) -> Seq<char>
    decreases t.len(),
{
    if t.len() == 0 {
        Seq::empty()
    } else {
        escaped(t.drop_last()) + escaped_char(t.last())
    }
}

/// The field at the front of `s`.
pub open spec fn read_field(s: Seq<char>) -> Field
    decreases s.len(),
{
    if s.len() == 0 {
        Field { text: Seq::empty(), stop: Stop::End, rest: s }
    } else if s[0] == ',' {
        Field { text: Seq::empty(), stop: Stop::Comma, rest: s.skip(1) }
    } else if s[0] == ';' {
        Field { text: Seq::empty(), stop: Stop::Semicolon, rest: s.skip(1) }
    } else if s[0] == '\\' {
        if s.len() >= 2 && is_special(s[1]) {
            let f = read_field(s.skip(2));
            Field { text: seq![s[1]] + f.text, stop: f.stop, rest: f.rest }
        } else {
            Field { text: Seq::empty(), stop: Stop::Broken, rest: s }
        }
    } else {
        let f = read_field(s.skip(1));
        Field { text: seq![s[0]] + f.text, stop: f.stop, rest: f.rest }
    }
}

/// One pair as it stands in a snapshot.
pub open spec fn record<K: Text, V: Text>(p: (K::V, V::V)) -> Seq<char> {
    escaped(K::text(p.0)) + seq![','] + escaped(V::text(p.1))
}

/// The snapshot of a sequence of pairs.
pub open spec fn encode<K: Text, V: Text>(pairs: Seq<(K::V, V::V)>) -> Seq<char>
    decreases pairs.len(),
{
    if pairs.len() == 0 {
        Seq::empty()
    } else if pairs.len() == 1 {
        record::<K, V>(pairs[0])
    } else {
        encode::<K, V>(pairs.drop_last()) + seq![';'] + record::<K, V>(pairs.last())
    }
}

/// What the pairs written in `s` make of the pairs `acc` when they are stored
/// into them one after another, or the first fault in `s`.
pub open spec fn decode_records<K: Text, V: Text>(s: Seq<char>, acc: Seq<(K::V, V::V)>) -> Result<
    Seq<(K::V, V::V)>,
    ParseError,
>
    decreases s.len(),
{
    let kf = read_field(s);
    if kf.stop == Stop::Broken {
        Err(ParseError::Malformed)
    } else {
        match K::read(kf.text) {
            None => Err(ParseError::Key),
            Some(k) => {
                if kf.stop != Stop::Comma {
                    Err(ParseError::Malformed)
                } else {
                    let vf = read_field(kf.rest);
                    if vf.stop == Stop::Broken {
                        Err(ParseError::Malformed)
                    } else {
                        match V::read(vf.text) {
                            None => Err(ParseError::Value),
                            Some(v) => {
                                if vf.stop == Stop::Comma {
                                    Err(ParseError::Malformed)
                                } else if vf.stop == Stop::End {
                                    Ok(inserted(acc, k, v))
                                } else {
                                    proof {
                                        lemma_read_field_rest(s);
                                        lemma_read_field_rest(kf.rest);
                                    }
                                    decode_records::<K, V>(vf.rest, inserted(acc, k, v))
                                }
                            },
                        }
                    }
                }
            },
        }
    }
}

/// The pairs that a snapshot holds, or the first fault in it.
pub open spec fn decode<K: Text, V: Text>(s: Seq<char>) -> Result<Seq<(K::V, V::V)>, ParseError> {
    if s.len() == 0 {
        Ok(Seq::empty())
    } else {
        decode_records::<K, V>(s, Seq::empty())
    }
}

/// Appends `text` to `out` as it stands in a snapshot.
pub fn push_escaped(out: &mut String, text: &str)
    ensures
        final(out)@ == old(out)@ + escaped(text@),
{
    let ghost before = out@;
    let chars = chars_of(text);
    let mut i: usize = 0;
    assert(out@ =~= before + escaped(chars@.take(0)));
    while i < chars.len()
        invariant
            i <= chars.len(),
            chars@ == text@,
            out@ == before + escaped(chars@.take(i as int)),
        decreases chars.len() - i,
    {
        let c = chars[i];
        let ghost so_far = out@;
        if c == ',' || c == ';' || c == '\\' {
            out.push('\\');
        }
        out.push(c);
        proof {
            let done = chars@.take(i as int);
            let now = chars@.take(i + 1);
            assert(now.drop_last() =~= done);
            assert(now.last() == c);
            assert(out@ =~= so_far + escaped_char(c));
            assert((before + escaped(done)) + escaped_char(c) =~= before + (escaped(done)
                + escaped_char(c)));
        }
        i += 1;
    }
    assert(chars@.take(chars.len() as int) =~= chars@);
}

/// Reads the field of `s` that begins at `start`: its text, what ended it,
/// and the position at which reading goes on.
pub fn read_field_at(s: &Vec<char>, start: usize) -> (r: (String, Stop, usize))
    requires
        start <= s.len(),
    ensures
        r.0@ == read_field(s@.skip(start as int)).text,
        r.1 == read_field(s@.skip(start as int)).stop,
        start <= r.2 <= s.len(),
        s@.skip(r.2 as int) == read_field(s@.skip(start as int)).rest,
{
    let ghost whole = read_field(s@.skip(start as int));
    let mut out = String::new();
    let mut j: usize = start;
    assert(out@ + read_field(s@.skip(j as int)).text =~= whole.text);
    while j < s.len()
        invariant
            start <= j <= s.len(),
            whole == read_field(s@.skip(start as int)),
            whole.text == out@ + read_field(s@.skip(j as int)).text,
            whole.stop == read_field(s@.skip(j as int)).stop,
            whole.rest == read_field(s@.skip(j as int)).rest,
        decreases s.len() - j,
    {
        let c = s[j];
        let ghost here = s@.skip(j as int);
        let ghost so_far = out@;
        assert(here[0] == c);
        assert(here.skip(1) =~= s@.skip(j + 1));
        if c == ',' {
            assert(out@ + Seq::<char>::empty() =~= out@);
            return (out, Stop::Comma, j + 1);
        } else if c == ';' {
            assert(out@ + Seq::<char>::empty() =~= out@);
            return (out, Stop::Semicolon, j + 1);
        } else if c == '\\' {
            if j + 1 < s.len() && (s[j + 1] == ',' || s[j + 1] == ';' || s[j + 1] == '\\') {
                let d = s[j + 1];
                assert(here[1] == d);
                assert(here.skip(2) =~= s@.skip(j + 2));
                out.push(d);
                j += 2;
                assert(so_far + (seq![d] + read_field(s@.skip(j as int)).text) =~= out@
                    + read_field(s@.skip(j as int)).text);
            } else {
                assert(out@ + Seq::<char>::empty() =~= out@);
                return (out, Stop::Broken, j);
            }
        } else {
            out.push(c);
            j += 1;
            assert(so_far + (seq![c] + read_field(s@.skip(j as int)).text) =~= out@ + read_field(
                s@.skip(j as int),
            ).text);
        }
    }
    assert(out@ + Seq::<char>::empty() =~= out@);
    (out, Stop::End, j)
}

/// What is left after a field is a final part of the text, and a shorter one
/// where a comma or a semicolon ended the field.
pub proof fn lemma_read_field_rest(s: Seq<char>)
    ensures
        read_field(s).rest.len() <= s.len(),
        read_field(s).rest == s.skip(s.len() - read_field(s).rest.len()),
        read_field(s).stop == Stop::Comma || read_field(s).stop == Stop::Semicolon
            ==> read_field(s).rest.len() < s.len(),
        read_field(s).stop == Stop::End ==> read_field(s).rest.len() == 0,
    decreases s.len(),
{
    if s.len() == 0 {
        assert(s.skip(0) =~= s);
    } else if s[0] == ',' || s[0] == ';' {
    } else if s[0] == '\\' {
        if s.len() >= 2 && is_special(s[1]) {
            let t = s.skip(2);
            lemma_read_field_rest(t);
            let n = t.len() - read_field(t).rest.len();
            assert(t.skip(n) =~= s.skip(n + 2));
        } else {
            assert(s.skip(0) =~= s);
        }
    } else {
        let t = s.skip(1);
        lemma_read_field_rest(t);
        let n = t.len() - read_field(t).rest.len();
        assert(t.skip(n) =~= s.skip(n + 1));
    }
}

/// A text is written character by character, from the front as well.
pub proof fn lemma_escaped_front(t: Seq<char>)
    requires
        t.len() > 0,
    ensures
        escaped(t) == escaped_char(t[0]) + escaped(t.skip(1)),
    decreases t.len(),
{
    if t.len() == 1 {
        assert(t.drop_last() =~= Seq::<char>::empty());
        assert(t.skip(1) =~= Seq::<char>::empty());
        assert(escaped(t.drop_last()) + escaped_char(t.last()) =~= escaped_char(t[0]) + escaped(
            t.skip(1),
        ));
    } else {
        let front = t.drop_last();
        lemma_escaped_front(front);
        assert(t.skip(1).drop_last() =~= front.skip(1));
        assert(t.skip(1).last() == t.last());
        assert((escaped_char(t[0]) + escaped(front.skip(1))) + escaped_char(t.last())
            =~= escaped_char(t[0]) + (escaped(front.skip(1)) + escaped_char(t.last())));
    }
}

/// Reading a written text gives the text back and goes on with what follows
/// it.
pub proof fn lemma_read_escaped(t: Seq<char>, tail: Seq<char>)
    ensures
        read_field(escaped(t) + tail) == (Field {
            text: t + read_field(tail).text,
            stop: read_field(tail).stop,
            rest: read_field(tail).rest,
        }),
    decreases t.len(),
{
    let s = escaped(t) + tail;
    if t.len() == 0 {
        assert(s =~= tail);
        assert(t + read_field(tail).text =~= read_field(tail).text);
    } else {
        let c = t[0];
        let more = t.skip(1);
        lemma_escaped_front(t);
        lemma_read_escaped(more, tail);
        let next = escaped(more) + tail;
        if is_special(c) {
            assert(s[0] == '\\');
            assert(s[1] == c);
            assert(s.skip(2) =~= next);
        } else {
            assert(s[0] == c);
            assert(s.skip(1) =~= next);
        }
        assert(seq![c] + (more + read_field(tail).text) =~= t + read_field(tail).text);
    }
}

/// The snapshot of two or more pairs is the first pair, a semicolon and the
/// snapshot of the others.
pub proof fn lemma_encode_front<K: Text, V: Text>(pairs: Seq<(K::V, V::V)>)
    requires
        pairs.len() >= 2,
    ensures
        encode::<K, V>(pairs) == record::<K, V>(pairs[0]) + seq![';'] + encode::<K, V>(
            pairs.skip(1),
        ),
    decreases pairs.len(),
{
    let front = pairs.drop_last();
    let others = pairs.skip(1);
    let first = record::<K, V>(pairs[0]);
    let last = record::<K, V>(pairs.last());
    let semi = seq![';'];
    assert(front.len() == pairs.len() - 1);
    assert(others.len() == pairs.len() - 1);
    assert(others.last() == pairs.last());
    assert(front[0] == pairs[0]);
    assert(encode::<K, V>(pairs) == encode::<K, V>(front) + semi + last);
    if pairs.len() == 2 {
        assert(others[0] == pairs[1]);
        assert(encode::<K, V>(front) == first);
        assert(encode::<K, V>(others) == last);
    } else {
        lemma_encode_front::<K, V>(front);
        assert(others.drop_last() =~= front.skip(1));
        let middle = encode::<K, V>(front.skip(1));
        assert(encode::<K, V>(front) == first + semi + middle);
        assert(encode::<K, V>(others) == middle + semi + last);
        assert((first + semi + middle) + semi + last =~= first + semi + (middle + semi + last));
    }
}

/// Reading the snapshot of one or more pairs stores each of them, in order.
pub proof fn lemma_decode_records_encode<K: Text, V: Text>(
    pairs: Seq<(K::V, V::V)>,
    acc: Seq<(K::V, V::V)>,
)
    requires
        pairs.len() > 0,
    ensures
        decode_records::<K, V>(encode::<K, V>(pairs), acc) == Ok::<Seq<(K::V, V::V)>, ParseError>(
            stored(acc, pairs),
        ),
    decreases pairs.len(),
{
    let s = encode::<K, V>(pairs);
    let k = pairs[0].0;
    let v = pairs[0].1;
    let kt = K::text(k);
    let vt = V::text(v);
    let others = pairs.skip(1);
    let after = if pairs.len() == 1 {
        Seq::<char>::empty()
    } else {
        seq![';'] + encode::<K, V>(others)
    };
    K::lemma_read_text(k);
    V::lemma_read_text(v);
    if pairs.len() >= 2 {
        lemma_encode_front::<K, V>(pairs);
    }
    let value_part = escaped(vt) + after;
    let key_tail = seq![','] + value_part;
    assert(s =~= escaped(kt) + key_tail);
    lemma_read_escaped(kt, key_tail);
    assert(key_tail.skip(1) =~= value_part);
    assert(kt + Seq::<char>::empty() =~= kt);
    let kf = read_field(s);
    assert(kf.text == kt);
    assert(kf.stop == Stop::Comma);
    assert(kf.rest == value_part);
    lemma_read_escaped(vt, after);
    assert(vt + Seq::<char>::empty() =~= vt);
    let vf = read_field(value_part);
    assert(vf.text == vt);
    let next = inserted(acc, k, v);
    assert(stored(acc, pairs) == stored(next, others));
    assert(K::read(kf.text) == Some(k));
    assert(V::read(vf.text) == Some(v));
    if pairs.len() == 1 {
        assert(vf.stop == Stop::End);
        assert(stored(next, others) == next);
        assert(decode_records::<K, V>(s, acc) == Ok::<Seq<(K::V, V::V)>, ParseError>(next));
    } else {
        assert(after.skip(1) =~= encode::<K, V>(others));
        assert(vf.stop == Stop::Semicolon);
        assert(vf.rest == encode::<K, V>(others));
        lemma_decode_records_encode::<K, V>(others, next);
        assert(decode_records::<K, V>(s, acc) == decode_records::<K, V>(vf.rest, next));
    }
}

/// Reading the snapshot of a sequence of pairs stores them one after another
/// into an empty store; where no key occurs twice, that gives the pairs back.
pub proof fn lemma_decode_encode<K: Text, V: Text>(pairs: Seq<(K::V, V::V)>)
    ensures
        decode::<K, V>(encode::<K, V>(pairs)) == Ok::<Seq<(K::V, V::V)>, ParseError>(
            stored(Seq::empty(), pairs),
        ),
        unique_keys(pairs) ==> decode::<K, V>(encode::<K, V>(pairs)) == Ok::<
            Seq<(K::V, V::V)>,
            ParseError,
        >(pairs),
{
    let none = Seq::<(K::V, V::V)>::empty();
    if pairs.len() > 0 {
        lemma_decode_records_encode::<K, V>(pairs, none);
        if pairs.len() >= 2 {
            lemma_encode_front::<K, V>(pairs);
        }
        assert(encode::<K, V>(pairs).len() > 0);
    }
    if unique_keys(pairs) {
        assert(none + pairs =~= pairs);
        lemma_stored_unique(none, pairs);
    }
}

} // verus!
