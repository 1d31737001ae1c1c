//! The text options of the programs: a list cut at a separator character,
//! decimal node ids, and a node's `--peers` list of `ID=ADDRESS` pairs.
use vstd::prelude::*;

verus! {

/// `s` cut at every `sep`: the fields between the separators, in order, as
/// `str::split` yields them (an empty text is one empty field).
pub open spec fn split_on(s: Seq<char>, sep: char) -> Seq<Seq<char>>
    decreases s.len(),
{
    if s.len() == 0 {
        seq![Seq::<char>::empty()]
    } else {
        let before = split_on(s.drop_last(), sep);
        if s.last() == sep {
            before.push(Seq::<char>::empty())
        } else {
            before.update(before.len() - 1, before.last().push(s.last()))
        }
    }
}

/// A cut always yields at least one field.
pub proof fn lemma_split_on_nonempty(s: Seq<char>, sep: char)
    ensures
        split_on(s, sep).len() >= 1,
    decreases s.len(),
{
    if s.len() > 0 {
        lemma_split_on_nonempty(s.drop_last(), sep);
    }
}

/// The texts of a list of strings.
pub open spec fn texts(v: Seq<String>) -> Seq<Seq<char>> {
    v.map_values(|f: String| f@)
}

/// Cut `text` at every `sep`, as `text.split(sep)` does.
pub fn split_fields(text: &str, sep: char) -> (r: Vec<String>)
    ensures
        texts(r@) == split_on(text@, sep),
{
    let n = text.unicode_len();
    let mut r: Vec<String> = Vec::new();
    let mut start: usize = 0;
    let mut i: usize = 0;
    assert(text@.subrange(0, 0) =~= Seq::<char>::empty());
    assert(text@.take(0) =~= Seq::<char>::empty());
    while i < n
        invariant
            n == text@.len(),
            start <= i <= n,
            texts(r@).push(text@.subrange(start as int, i as int)) == split_on(
                text@.take(i as int),
                sep,
            ),
        decreases n - i,
    {
        let c = text.get_char(i);
        let ghost before = split_on(text@.take(i as int), sep);
        proof {
            lemma_split_on_nonempty(text@.take(i as int), sep);
            assert(text@.take(i + 1).drop_last() =~= text@.take(i as int));
            assert(text@.take(i + 1).last() == c);
        }
        if c == sep {
            let field = text.substring_char(start, i).to_owned();
            let ghost r0 = r@;
            r.push(field);
            proof {
                assert(texts(r@) =~= texts(r0).push(text@.subrange(start as int, i as int)));
                assert(text@.subrange(i + 1, i + 1) =~= Seq::<char>::empty());
            }
            start = i + 1;
        } else {
            proof {
                assert(text@.subrange(start as int, i + 1) =~= text@.subrange(start as int, i as int).push(c));
                assert(texts(r@).push(text@.subrange(start as int, i + 1)) =~= before.update(
                    before.len() - 1,
                    before.last().push(c),
                ));
            }
        }
        i = i + 1;
    }
    let last = text.substring_char(start, n).to_owned();
    let ghost r0 = r@;
    r.push(last);
    proof {
        assert(texts(r@) =~= texts(r0).push(text@.subrange(start as int, n as int)));
        assert(text@.take(n as int) =~= text@);
    }
    r
}

/// Whether `c` is a decimal digit.
pub open spec fn is_digit(c: char) -> bool {
    '0' <= c && c <= '9'
}

/// The number that a text of decimal digits writes.
pub open spec fn digits_value(s: Seq<char>) -> int
    decreases s.len(),
{
    if s.len() == 0 {
        0
    } else {
        digits_value(s.drop_last()) * 10 + (s.last() as int - '0' as int)
    }
}

/// Whether every character of `d` is a decimal digit.
pub open spec fn all_digits(d: Seq<char>) -> bool {
    forall|j: int| 0 <= j < d.len() ==> is_digit(#[trigger] d[j])
}

/// The digits of `s`: the text after a leading `+`, if there is one.
pub open spec fn unsigned_digits(s: Seq<char>) -> Seq<char> {
    if s.len() > 0 && s[0] == '+' {
        s.drop_first()
    } else {
        s
    }
}

/// What `u64::from_str` gives for `s`: an optional `+`, then one or more
/// decimal digits whose value fits in a `u64`; anything else is refused.
pub open spec fn parsed_u64(s: Seq<char>) -> Option<u64> {
    let d = unsigned_digits(s);
    if d.len() > 0 && all_digits(d) && digits_value(d) <= u64::MAX {
        Some(digits_value(d) as u64)
    } else {
        None
    }
}

/// Read a decimal `u64` as `str::parse::<u64>` does.
pub fn parse_u64(text: &str) -> (r: Option<u64>)
    ensures
        r == parsed_u64(text@),
{
    let n = text.unicode_len();
    let ghost s = text@;
    let start: usize = if n > 0 && text.get_char(0) == '+' {
        1
    } else {
        0
    };
    let ghost d = unsigned_digits(s);
    assert(d =~= s.subrange(start as int, n as int));
    if start == n {
        return None;
    }
    let mut value: u64 = 0;
    let mut overflow = false;
    let mut i: usize = start;
    assert(s.subrange(start as int, start as int) =~= Seq::<char>::empty());
    while i < n
        invariant
            n == s.len(),
            s == text@,
            d == s.subrange(start as int, n as int),
            d == unsigned_digits(s),
            start <= i <= n,
            forall|j: int| start <= j < i ==> is_digit(#[trigger] s[j]),
            !overflow ==> value == digits_value(s.subrange(start as int, i as int)),
            overflow ==> digits_value(s.subrange(start as int, i as int)) > u64::MAX,
            digits_value(s.subrange(start as int, i as int)) >= 0,
        decreases n - i,
    {
        let c = text.get_char(i);
        if !('0' <= c && c <= '9') {
            assert(d[i - start] == s[i as int]);
            assert(!is_digit(d[i - start]));
            return None;
        }
        let digit = (c as u32 - '0' as u32) as u64;
        proof {
            let t = s.subrange(start as int, i + 1);
            assert(t.drop_last() =~= s.subrange(start as int, i as int));
            assert(t.last() == c);
            assert(digits_value(t) == digits_value(s.subrange(start as int, i as int)) * 10 + digit);
        }
        if !overflow {
            let next: u128 = value as u128 * 10 + digit as u128;
            if next > u64::MAX as u128 {
                overflow = true;
            } else {
                value = next as u64;
            }
        }
        i = i + 1;
    }
    assert(s.subrange(start as int, i as int) =~= d);
    assert forall|j: int| 0 <= j < d.len() implies is_digit(#[trigger] d[j]) by {
        assert(d[j] == s[start + j]);
    }
    if overflow {
        None
    } else {
        Some(value)
    }
}

/// Why a `--peers` list is refused.
#[derive(Debug, Clone, Copy, PartialEq, Eq, Structural)]
pub enum PeerListError {
    /// The id of an `ID=ADDRESS` pair is not a decimal `u64`.
    InvalidId,
}

/// The peers that a list of fields names, in order: every field with exactly
/// one `=` is a pair `ID=ADDRESS`, others are skipped; the first pair whose id
/// does not parse refuses the whole list.
pub open spec fn peers_of(fields: Seq<Seq<char>>) -> Result<Seq<(u64, Seq<char>)>, PeerListError>
    decreases fields.len(),
{
    if fields.len() == 0 {
        Ok(Seq::empty())
    } else {
        match peers_of(fields.drop_last()) {
            Err(e) => Err(e),
            Ok(before) => {
                let parts = split_on(fields.last(), '=');
                if parts.len() != 2 {
                    Ok(before)
                } else {
                    match parsed_u64(parts[0]) {
                        Some(id) => Ok(before.push((id, parts[1]))),
                        None => Err(PeerListError::InvalidId),
                    }
                }
            },
        }
    }
}

/// The peers of a `--peers` text: comma-separated `ID=ADDRESS` pairs.
pub open spec fn parsed_peers(s: Seq<char>) -> Result<Seq<(u64, Seq<char>)>, PeerListError> {
    peers_of(split_on(s, ','))
}

/// The pairs as ids with address texts.
pub open spec fn pairs_view(v: Seq<(u64, String)>) -> Seq<(u64, Seq<char>)> {
    v.map_values(|p: (u64, String)| (p.0, p.1@))
}

/// Read a `--peers` list such as `1=127.0.0.1:8002,2=127.0.0.1:8003` into
/// ids with their address texts, in order.
pub fn parse_peers(text: &str) -> (r: Result<Vec<(u64, String)>, PeerListError>)
    ensures
        match r {
            Ok(v) => parsed_peers(text@) == Ok::<Seq<(u64, Seq<char>)>, PeerListError>(pairs_view(v@)),
            Err(e) => parsed_peers(text@) == Err::<Seq<(u64, Seq<char>)>, PeerListError>(e),
        },
{
    let fields = split_fields(text, ',');
    let mut r: Vec<(u64, String)> = Vec::new();
    let mut i: usize = 0;
    assert(texts(fields@).take(0) =~= Seq::<Seq<char>>::empty());
    assert(pairs_view(r@) =~= Seq::<(u64, Seq<char>)>::empty());
    while i < fields.len()
        invariant
            i <= fields@.len(),
            texts(fields@) == split_on(text@, ','),
            peers_of(texts(fields@).take(i as int)) == Ok::<Seq<(u64, Seq<char>)>, PeerListError>(
                pairs_view(r@),
            ),
        decreases fields.len() - i,
    {
        let ghost fs = texts(fields@).take(i + 1);
        proof {
            assert(fs.drop_last() =~= texts(fields@).take(i as int));
            assert(fs.last() == fields@[i as int]@);
        }
        let parts = split_fields(fields[i].as_str(), '=');
        if parts.len() == 2 {
            assert(texts(parts@)[0] == parts@[0]@);
            match parse_u64(parts[0].as_str()) {
                Some(id) => {
                    let ghost r0 = r@;
                    r.push((id, parts[1].clone()));
                    assert(pairs_view(r@) =~= pairs_view(r0).push((id, parts@[1]@)));
                },
                None => {
                    proof {
                        lemma_peers_err_stays(texts(fields@), i as int + 1);
                        assert(texts(fields@).take(fields@.len() as int) =~= texts(fields@));
                    }
                    return Err(PeerListError::InvalidId);
                },
            }
        }
        i = i + 1;
    }
    assert(texts(fields@).take(i as int) =~= texts(fields@));
    Ok(r)
}

/// Once a prefix of the fields is refused, every longer prefix is refused
/// with the same error.
proof fn lemma_peers_err_stays(fields: Seq<Seq<char>>, k: int)
    requires
        0 <= k <= fields.len(),
        peers_of(fields.take(k)) is Err,
    ensures
        peers_of(fields.take(fields.len() as int)) == peers_of(fields.take(k)),
    decreases fields.len() - k,
{
    if k < fields.len() {
        assert(fields.take(k + 1).drop_last() =~= fields.take(k));
        lemma_peers_err_stays(fields, k + 1);
    }
}

} // verus!
