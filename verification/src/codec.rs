//! The persistence format: a bracketed, comma-separated array of quoted
//! strings, most-recent-first, with `"` and `\` escaped by a backslash.
//! Decoding is total: text that does not parse decodes to the empty
//! sequence, so a corrupt history file reads back as no history.

use vstd::prelude::*;
use vstd::string::StrSliceExecFns;

use crate::text::push_char;

verus! {

/// `c` as it appears inside a quoted string: quotes and backslashes are
/// preceded by a backslash, every other character stands for itself.
pub open spec fn escape_char(c: char) -> Seq<char> {
    if c == '"' || c == '\\' {
        seq!['\\', c]
    } else {
        seq![c]
    }
}

/// The body of a quoted string holding the text `s`.
pub open spec fn escape(s: Seq<char>) -> Seq<char>
    decreases s.len(),
{
    if s.len() == 0 {
        Seq::empty()
    } else {
        escape_char(s[0]) + escape(s.skip(1))
    }
}

/// One entry as it appears in the encoded text: the escaped body in quotes.
pub open spec fn encode_entry(e: Seq<char>) -> Seq<char> {
    seq!['"'] + escape(e) + seq!['"']
}

/// The entries as they appear between the brackets, comma-separated.
pub open spec fn encode_items(l: Seq<Seq<char>>) -> Seq<char>
    decreases l.len(),
{
    if l.len() == 0 {
        Seq::empty()
    } else if l.len() == 1 {
        encode_entry(l[0])
    } else {
        encode_entry(l[0]) + seq![','] + encode_items(l.skip(1))
    }
}

/// The full encoded text for the entry sequence `l`.
pub open spec fn encode_spec(l: Seq<Seq<char>>) -> Seq<char> {
    seq!['['] + encode_items(l) + seq![']']
}

/// Position of the scanner between two characters of the input, together
/// with everything it has accepted so far.
pub enum ScanState {
    /// Before the opening bracket.
    Opening,
    /// Before an entry's opening quote; `first` while the closing bracket
    /// of an empty array is still allowed.
    ItemStart { acc: Seq<Seq<char>>, first: bool },
    /// Inside a quoted string, `cur` read so far.
    Body { acc: Seq<Seq<char>>, cur: Seq<char> },
    /// Inside a quoted string, directly after a backslash.
    Escaped { acc: Seq<Seq<char>>, cur: Seq<char> },
    /// After an entry's closing quote.
    ItemEnd { acc: Seq<Seq<char>> },
    /// After the closing bracket.
    Closed { acc: Seq<Seq<char>> },
}

/// Runs the scanner over `s` from state `st`: the entry sequence the text
/// denotes, or `None` where `s` is not well-formed from `st` on.
pub open spec fn scan(s: Seq<char>, st: ScanState) -> Option<Seq<Seq<char>>>
    decreases s.len(),
{
    if s.len() == 0 {
        match st {
            ScanState::Closed { acc } => Some(acc),
            _ => None,
        }
    } else {
        let c = s[0];
        let rest = s.skip(1);
        match st {
            ScanState::Opening => {
                if c == '[' {
                    scan(rest, ScanState::ItemStart { acc: seq![], first: true })
                } else {
                    None
                }
            },
            ScanState::ItemStart { acc, first } => {
                if c == '"' {
                    scan(rest, ScanState::Body { acc, cur: seq![] })
                } else if first && c == ']' {
                    scan(rest, ScanState::Closed { acc })
                } else {
                    None
                }
            },
            ScanState::Body { acc, cur } => {
                if c == '"' {
                    scan(rest, ScanState::ItemEnd { acc: acc.push(cur) })
                } else if c == '\\' {
                    scan(rest, ScanState::Escaped { acc, cur })
                } else {
                    scan(rest, ScanState::Body { acc, cur: cur.push(c) })
                }
            },
            ScanState::Escaped { acc, cur } => {
                scan(rest, ScanState::Body { acc, cur: cur.push(c) })
            },
            ScanState::ItemEnd { acc } => {
                if c == ',' {
                    scan(rest, ScanState::ItemStart { acc, first: false })
                } else if c == ']' {
                    scan(rest, ScanState::Closed { acc })
                } else {
                    None
                }
            },
            ScanState::Closed { .. } => None,
        }
    }
}

/// Whether `s` is a well-formed encoding of some entry sequence.
pub open spec fn well_formed_text(s: Seq<char>) -> bool {
    scan(s, ScanState::Opening) is Some
}

/// What decoding returns on `s`: the denoted entries, or the empty
/// sequence where `s` is not well-formed.
pub open spec fn decode_spec(s: Seq<char>) -> Seq<Seq<char>> {
    match scan(s, ScanState::Opening) {
        Some(l) => l,
        None => Seq::empty(),
    }
}

/// Scanning a string body consumes its escaped text into `cur`.
proof fn lemma_scan_escape(e: Seq<char>, rest: Seq<char>, acc: Seq<Seq<char>>, cur: Seq<char>)
    ensures
        scan(escape(e) + rest, ScanState::Body { acc, cur }) == scan(
            rest,
            ScanState::Body { acc, cur: cur + e },
        ),
    decreases e.len(),
{
    if e.len() == 0 {
        assert(escape(e) + rest =~= rest);
        assert(cur + e =~= cur);
    } else {
        let c = e[0];
        let e1 = e.skip(1);
        assert(cur.push(c) + e1 =~= cur + e);
        if c == '"' || c == '\\' {
            let s = escape(e) + rest;
            assert(s =~= seq!['\\', c] + (escape(e1) + rest));
            assert(s[0] == '\\');
            assert(s.skip(1) =~= seq![c] + (escape(e1) + rest));
            let s1 = s.skip(1);
            assert(scan(s, ScanState::Body { acc, cur }) == scan(
                s1,
                ScanState::Escaped { acc, cur },
            ));
            assert(s1[0] == c);
            assert(s1.skip(1) =~= escape(e1) + rest);
            assert(scan(s1, ScanState::Escaped { acc, cur }) == scan(
                s1.skip(1),
                ScanState::Body { acc, cur: cur.push(c) },
            ));
            lemma_scan_escape(e1, rest, acc, cur.push(c));
        } else {
            let s = escape(e) + rest;
            assert(s =~= seq![c] + (escape(e1) + rest));
            assert(s[0] == c);
            assert(s.skip(1) =~= escape(e1) + rest);
            assert(scan(s, ScanState::Body { acc, cur }) == scan(
                s.skip(1),
                ScanState::Body { acc, cur: cur.push(c) },
            ));
            lemma_scan_escape(e1, rest, acc, cur.push(c));
        }
    }
}

/// Scanning one whole quoted entry appends its text to the accepted ones.
proof fn lemma_scan_entry(e: Seq<char>, rest: Seq<char>, acc: Seq<Seq<char>>, first: bool)
    ensures
        scan(encode_entry(e) + rest, ScanState::ItemStart { acc, first }) == scan(
            rest,
            ScanState::ItemEnd { acc: acc.push(e) },
        ),
{
    let s = encode_entry(e) + rest;
    assert(s[0] == '"');
    assert(s.skip(1) =~= escape(e) + (seq!['"'] + rest));
    lemma_scan_escape(e, seq!['"'] + rest, acc, seq![]);
    let q = seq!['"'] + rest;
    assert(q[0] == '"');
    assert(q.skip(1) =~= rest);
    assert(Seq::<char>::empty() + e =~= e);
}

/// Scanning the comma-separated entries followed by the closing bracket
/// accepts exactly those entries, after whatever was accepted before.
proof fn lemma_scan_items(l: Seq<Seq<char>>, acc: Seq<Seq<char>>, first: bool)
    requires
        l.len() > 0,
    ensures
        scan(encode_items(l) + seq![']'], ScanState::ItemStart { acc, first }) == Some(acc + l),
    decreases l.len(),
{
    if l.len() == 1 {
        assert(encode_items(l) + seq![']'] =~= encode_entry(l[0]) + seq![']']);
        lemma_scan_entry(l[0], seq![']'], acc, first);
        let q = seq![']'];
        assert(q[0] == ']');
        assert(scan(q, ScanState::ItemEnd { acc: acc.push(l[0]) }) == scan(
            q.skip(1),
            ScanState::Closed { acc: acc.push(l[0]) },
        ));
        assert(q.skip(1) =~= Seq::<char>::empty());
        assert(scan(Seq::<char>::empty(), ScanState::Closed { acc: acc.push(l[0]) }) == Some(
            acc.push(l[0]),
        ));
        assert(acc.push(l[0]) =~= acc + l);
    } else {
        let l1 = l.skip(1);
        let rest = seq![','] + (encode_items(l1) + seq![']']);
        assert(encode_items(l) + seq![']'] =~= encode_entry(l[0]) + rest);
        lemma_scan_entry(l[0], rest, acc, first);
        assert(rest[0] == ',');
        assert(rest.skip(1) =~= encode_items(l1) + seq![']']);
        assert(scan(rest, ScanState::ItemEnd { acc: acc.push(l[0]) }) == scan(
            rest.skip(1),
            ScanState::ItemStart { acc: acc.push(l[0]), first: false },
        ));
        lemma_scan_items(l1, acc.push(l[0]), false);
        assert(acc.push(l[0]) + l1 =~= acc + l);
    }
}

/// The round trip: decoding an encoded entry sequence yields that
/// sequence again, whatever the entries hold.
pub proof fn lemma_round_trip(l: Seq<Seq<char>>)
    ensures
        well_formed_text(encode_spec(l)),
        decode_spec(encode_spec(l)) == l,
{
    let s = encode_spec(l);
    assert(s[0] == '[');
    assert(s.skip(1) =~= encode_items(l) + seq![']']);
    assert(scan(s, ScanState::Opening) == scan(
        s.skip(1),
        ScanState::ItemStart { acc: seq![], first: true },
    ));
    if l.len() == 0 {
        let q = seq![']'];
        assert(s.skip(1) =~= q);
        assert(q[0] == ']');
        assert(scan(q, ScanState::ItemStart { acc: seq![], first: true }) == scan(
            q.skip(1),
            ScanState::Closed { acc: seq![] },
        ));
        assert(q.skip(1) =~= Seq::<char>::empty());
        assert(scan(Seq::<char>::empty(), ScanState::Closed { acc: seq![] }) == Some(
            Seq::<Seq<char>>::empty(),
        ));
        assert(l =~= Seq::<Seq<char>>::empty());
    } else {
        lemma_scan_items(l, seq![], true);
        assert(Seq::<Seq<char>>::empty() + l =~= l);
    }
}

/// Text that does not parse decodes to no history at all: a corrupt or
/// foreign file is read as an empty entry sequence, never as an error.
pub proof fn lemma_malformed_decodes_empty(s: Seq<char>)
    requires
        !well_formed_text(s),
    ensures
        decode_spec(s) == Seq::<Seq<char>>::empty(),
{
}

/// Writes `e`'s escaped body onto the end of `out`.
fn push_escaped(out: &mut String, e: &str)
    ensures
        final(out)@ == old(out)@ + escape(e@),
{
    let n = e.unicode_len();
    let mut j: usize = 0;
    while j < n
        invariant
            0 <= j <= n,
            n == e@.len(),
            out@ == old(out)@ + escape(e@.take(j as int)),
        decreases n - j,
    {
        let c = e.get_char(j);
        proof {
            lemma_escape_take_succ(e@, j as int);
        }
        if c == '"' || c == '\\' {
            push_char(out, '\\');
        }
        push_char(out, c);
        j += 1;
        proof {
            assert(out@ =~= old(out)@ + escape(e@.take(j as int)));
        }
    }
    proof {
        assert(e@.take(n as int) =~= e@);
    }
}

/// Escaping one more character appends that character's escape.
proof fn lemma_escape_take_succ(s: Seq<char>, j: int)
    requires
        0 <= j < s.len(),
    ensures
        escape(s.take(j + 1)) == escape(s.take(j)) + escape_char(s[j]),
    decreases j,
{
    if j == 0 {
        assert(s.take(0) =~= Seq::<char>::empty());
        assert(escape(Seq::<char>::empty()) == Seq::<char>::empty());
        assert(s.take(1) =~= seq![s[0]]);
        assert(seq![s[0]].skip(1) =~= Seq::<char>::empty());
        assert(escape(seq![s[0]]) == escape_char(s[0]) + escape(Seq::<char>::empty()));
        assert(escape_char(s[0]) + Seq::<char>::empty() =~= escape_char(s[0]));
        assert(Seq::<char>::empty() + escape_char(s[0]) =~= escape_char(s[0]));
    } else {
        assert(s.take(j + 1)[0] == s[0]);
        assert(s.take(j + 1).skip(1) =~= s.skip(1).take(j));
        assert(s.take(j)[0] == s[0]);
        assert(s.take(j).skip(1) =~= s.skip(1).take(j - 1));
        lemma_escape_take_succ(s.skip(1), j - 1);
        assert(s.skip(1)[j - 1] == s[j]);
        assert(escape_char(s[0]) + (escape(s.skip(1).take(j - 1)) + escape_char(s[j])) =~= (
        escape_char(s[0]) + escape(s.skip(1).take(j - 1))) + escape_char(s[j]));
    }
}

/// Appending one more entry extends the comma-separated text.
proof fn lemma_encode_items_snoc(l: Seq<Seq<char>>, x: Seq<char>)
    ensures
        l.len() == 0 ==> encode_items(l.push(x)) == encode_entry(x),
        l.len() > 0 ==> encode_items(l.push(x)) == encode_items(l) + seq![','] + encode_entry(x),
    decreases l.len(),
{
    if l.len() == 0 {
        assert(l.push(x) =~= seq![x]);
        assert(encode_items(seq![x]) == encode_entry(x));
    } else if l.len() == 1 {
        let p = l.push(x);
        assert(p.len() == 2);
        assert(p[0] == l[0]);
        assert(p.skip(1) =~= seq![x]);
        assert(encode_items(seq![x]) == encode_entry(x));
        assert(encode_items(p) == encode_entry(p[0]) + seq![','] + encode_items(p.skip(1)));
        assert(encode_items(l) == encode_entry(l[0]));
    } else {
        let p = l.push(x);
        assert(p[0] == l[0]);
        assert(p.skip(1) =~= l.skip(1).push(x));
        lemma_encode_items_snoc(l.skip(1), x);
        assert(encode_entry(p[0]) + seq![','] + (encode_items(l.skip(1)) + seq![','] + encode_entry(
            x,
        )) =~= (encode_entry(l[0]) + seq![','] + encode_items(l.skip(1))) + seq![','] + encode_entry(
            x,
        ));
    }
}

/// Encodes the entries, most-recent-first, as the persistence text.
pub fn encode(entries: &Vec<String>) -> (text: String)
    ensures
        text@ == encode_spec(entries.deep_view()),
{
    let ghost l: Seq<Seq<char>> = entries.deep_view();
    let mut out = String::new();
    push_char(&mut out, '[');
    let mut idx: usize = 0;
    while idx < entries.len()
        invariant
            0 <= idx <= entries.len(),
            l == entries.deep_view(),
            out@ == seq!['['] + encode_items(l.take(idx as int)),
        decreases entries.len() - idx,
    {
        if idx > 0 {
            push_char(&mut out, ',');
        }
        push_char(&mut out, '"');
        push_escaped(&mut out, entries[idx].as_str());
        push_char(&mut out, '"');
        proof {
            assert(l.take(idx as int).push(l[idx as int]) =~= l.take(idx as int + 1));
            lemma_encode_items_snoc(l.take(idx as int), l[idx as int]);
            assert(l[idx as int] == entries@[idx as int]@);
        }
        idx += 1;
        proof {
            assert(out@ =~= seq!['['] + encode_items(l.take(idx as int)));
        }
    }
    push_char(&mut out, ']');
    proof {
        assert(l.take(entries.len() as int) =~= l);
        assert(out@ =~= encode_spec(l));
    }
    out
}

/// The scanner's position, without what it has accepted so far.
#[derive(Clone, Copy, PartialEq, Eq, Structural)]
enum Phase {
    Opening,
    ItemStart,
    Body,
    Escaped,
    ItemEnd,
    Closed,
}

/// The scanner state denoted by the decoder's loop variables.
spec fn abs_state(phase: Phase, acc: Seq<Seq<char>>, cur: Seq<char>, first: bool) -> ScanState {
    match phase {
        Phase::Opening => ScanState::Opening,
        Phase::ItemStart => ScanState::ItemStart { acc, first },
        Phase::Body => ScanState::Body { acc, cur },
        Phase::Escaped => ScanState::Escaped { acc, cur },
        Phase::ItemEnd => ScanState::ItemEnd { acc },
        Phase::Closed => ScanState::Closed { acc },
    }
}

/// Decodes persistence text into its entries, most-recent-first. Total:
/// text that is not a well-formed encoding yields the empty sequence.
pub fn decode(text: &str) -> (entries: Vec<String>)
    ensures
        entries.deep_view() == decode_spec(text@),
{
    let n = text.unicode_len();
    let mut acc: Vec<String> = Vec::new();
    let mut cur: String = String::new();
    let mut first: bool = true;
    let mut phase = Phase::Opening;
    let mut i: usize = 0;
    let empty: Vec<String> = Vec::new();
    proof {
        assert(empty.deep_view() =~= Seq::<Seq<char>>::empty());
        assert(text@.skip(0) =~= text@);
    }
    while i < n
        invariant
            0 <= i <= n,
            n == text@.len(),
            empty.deep_view() == Seq::<Seq<char>>::empty(),
            phase == Phase::Opening ==> acc.deep_view() == Seq::<Seq<char>>::empty(),
            scan(text@, ScanState::Opening) == scan(
                text@.skip(i as int),
                abs_state(phase, acc.deep_view(), cur@, first),
            ),
        decreases n - i,
    {
        let c = text.get_char(i);
        let ghost remaining = text@.skip(i as int);
        let ghost st0 = abs_state(phase, acc.deep_view(), cur@, first);
        proof {
            assert(remaining.len() == n - i);
            assert(remaining[0] == text@[i as int]);
            assert(remaining.skip(1) =~= text@.skip(i as int + 1));
        }
        match phase {
            Phase::Opening => {
                if c == '[' {
                    phase = Phase::ItemStart;
                    first = true;
                    proof {
                        assert(scan(remaining, st0) == scan(
                            remaining.skip(1),
                            ScanState::ItemStart { acc: seq![], first: true },
                        ));
                    }
                } else {
                    proof {
                        assert(scan(remaining, st0) is None);
                    }
                    return empty;
                }
            },
            Phase::ItemStart => {
                if c == '"' {
                    phase = Phase::Body;
                    cur = String::new();
                    proof {
                        assert(scan(remaining, st0) == scan(
                            remaining.skip(1),
                            ScanState::Body { acc: acc.deep_view(), cur: seq![] },
                        ));
                    }
                } else if first && c == ']' {
                    phase = Phase::Closed;
                    proof {
                        assert(scan(remaining, st0) == scan(
                            remaining.skip(1),
                            ScanState::Closed { acc: acc.deep_view() },
                        ));
                    }
                } else {
                    proof {
                        assert(scan(remaining, st0) is None);
                    }
                    return empty;
                }
            },
            Phase::Body => {
                if c == '"' {
                    phase = Phase::ItemEnd;
                    let done = cur;
                    cur = String::new();
                    let ghost acc0 = acc.deep_view();
                    acc.push(done);
                    proof {
                        assert(acc.deep_view() =~~= acc0.push(done@));
                        assert(scan(remaining, st0) == scan(
                            remaining.skip(1),
                            ScanState::ItemEnd { acc: acc0.push(done@) },
                        ));
                    }
                } else if c == '\\' {
                    phase = Phase::Escaped;
                    proof {
                        assert(scan(remaining, st0) == scan(
                            remaining.skip(1),
                            ScanState::Escaped { acc: acc.deep_view(), cur: cur@ },
                        ));
                    }
                } else {
                    let ghost cur0 = cur@;
                    push_char(&mut cur, c);
                    proof {
                        assert(scan(remaining, st0) == scan(
                            remaining.skip(1),
                            ScanState::Body { acc: acc.deep_view(), cur: cur0.push(c) },
                        ));
                    }
                }
            },
            Phase::Escaped => {
                phase = Phase::Body;
                let ghost cur0 = cur@;
                push_char(&mut cur, c);
                proof {
                    assert(scan(remaining, st0) == scan(
                        remaining.skip(1),
                        ScanState::Body { acc: acc.deep_view(), cur: cur0.push(c) },
                    ));
                }
            },
            Phase::ItemEnd => {
                if c == ',' {
                    phase = Phase::ItemStart;
                    first = false;
                    proof {
                        assert(scan(remaining, st0) == scan(
                            remaining.skip(1),
                            ScanState::ItemStart { acc: acc.deep_view(), first: false },
                        ));
                    }
                } else if c == ']' {
                    phase = Phase::Closed;
                    proof {
                        assert(scan(remaining, st0) == scan(
                            remaining.skip(1),
                            ScanState::Closed { acc: acc.deep_view() },
                        ));
                    }
                } else {
                    proof {
                        assert(scan(remaining, st0) is None);
                    }
                    return empty;
                }
            },
            Phase::Closed => {
                proof {
                    assert(scan(remaining, st0) is None);
                }
                return empty;
            },
        }
        i += 1;
    }
    proof {
        assert(text@.skip(n as int) =~= Seq::<char>::empty());
    }
    if matches!(phase, Phase::Closed) {
        acc
    } else {
        empty
    }
}

} // verus!
