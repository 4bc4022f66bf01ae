//! Character-level text helpers: appending characters to owned strings and
//! truncating display text without splitting a multi-byte character.

use vstd::prelude::*;
use vstd::string::StrSliceExecFns;

verus! {

/// Relies on `String::push`: appends exactly the one given character.
#[verifier::external_body]
pub(crate) fn push_char(s: &mut String, c: char)
    ensures
        final(s)@ == old(s)@.push(c),
{
    s.push(c)
}

/// The number of bytes of the UTF-8 encoding of `c`.
pub open spec fn char_utf8_len(c: char) -> int {
    if (c as u32) < 0x80 {
        1
    } else if (c as u32) < 0x800 {
        2
    } else if (c as u32) < 0x10000 {
        3
    } else {
        4
    }
}

/// The number of bytes of the UTF-8 encoding of `s`.
pub open spec fn utf8_len(s: Seq<char>) -> int
    decreases s.len(),
{
    if s.len() == 0 {
        0
    } else {
        char_utf8_len(s[0]) + utf8_len(s.skip(1))
    }
}

/// `char_utf8_len(c)`, executably.
fn char_len(c: char) -> (n: usize)
    ensures
        n == char_utf8_len(c),
        1 <= n <= 4,
{
    let u = c as u32;
    if u < 0x80 {
        1
    } else if u < 0x800 {
        2
    } else if u < 0x10000 {
        3
    } else {
        4
    }
}

/// `utf8_len` of a prefix grows by the last character's width.
proof fn lemma_utf8_len_take_succ(s: Seq<char>, i: int)
    requires
        0 <= i < s.len(),
    ensures
        utf8_len(s.take(i + 1)) == utf8_len(s.take(i)) + char_utf8_len(s[i]),
    decreases i,
{
    if i == 0 {
        assert(s.take(1) =~= seq![s[0]]);
        assert(s.take(1).skip(1) =~= Seq::<char>::empty());
        assert(s.take(0) =~= Seq::<char>::empty());
    } else {
        assert(s.take(i + 1)[0] == s[0]);
        assert(s.take(i + 1).skip(1) =~= s.skip(1).take(i));
        assert(s.take(i).skip(1) =~= s.skip(1).take(i - 1));
        lemma_utf8_len_take_succ(s.skip(1), i - 1);
        assert(s.skip(1)[i - 1] == s[i]);
    }
}

/// `utf8_len` of the full sequence is `utf8_len` of its full prefix.
proof fn lemma_utf8_len_take_all(s: Seq<char>)
    ensures
        utf8_len(s.take(s.len() as int)) == utf8_len(s),
{
    assert(s.take(s.len() as int) =~= s);
}

/// The display side of the history list: how one retained entry is turned
/// into the line a presentation surface shows. The surface itself (window,
/// layout, clicks) is an external collaborator; only its text logic lives
/// here.
pub struct ClipboardApp;

impl ClipboardApp {
    /// Shortens `text` for display. Text whose UTF-8 encoding fits in
    /// `max_length` bytes is returned unchanged; longer text is cut after the
    /// longest character prefix whose encoding fits, never inside a character,
    /// and an ellipsis of three dots is appended.
    pub fn truncate_text(text: &str, max_length: usize) -> (r: String)
        ensures
            utf8_len(text@) <= max_length ==> r@ == text@,
            utf8_len(text@) > max_length ==> exists|k: int|
                0 <= k <= text@.len() && utf8_len(text@.take(k)) <= max_length && (k == text@.len()
                    || utf8_len(text@.take(k + 1)) > max_length) && r@ == text@.take(k) + seq![
                    '.',
                    '.',
                    '.',
                ],
    {
        let n = text.unicode_len();
        let mut i: usize = 0;
        let mut width: usize = 0;
        let mut kept = String::new();
        loop
            invariant
                0 <= i <= n,
                n == text@.len(),
                width == utf8_len(text@.take(i as int)),
                width <= max_length,
                kept@ == text@.take(i as int),
            ensures
                0 <= i <= n,
                n == text@.len(),
                kept@ == text@.take(i as int),
                utf8_len(text@.take(i as int)) <= max_length,
                i == n || utf8_len(text@.take(i as int + 1)) > max_length,
            decreases n - i,
        {
            if i >= n {
                break;
            }
            let c = text.get_char(i);
            let w = char_len(c);
            proof {
                lemma_utf8_len_take_succ(text@, i as int);
            }
            if w > max_length - width {
                break;
            }
            push_char(&mut kept, c);
            width = width + w;
            i = i + 1;
        }
        proof {
            lemma_utf8_len_take_all(text@);
        }
        if i == n {
            text.to_owned()
        } else {
            proof {
                lemma_utf8_len_monotone(text@, i as int + 1);
            }
            push_char(&mut kept, '.');
            push_char(&mut kept, '.');
            push_char(&mut kept, '.');
            proof {
                assert(kept@ =~= text@.take(i as int) + seq!['.', '.', '.']);
            }
            kept
        }
    }
}

/// A longer prefix never has a smaller UTF-8 length.
proof fn lemma_utf8_len_monotone(s: Seq<char>, k: int)
    requires
        0 <= k <= s.len(),
    ensures
        utf8_len(s.take(k)) <= utf8_len(s),
    decreases s.len() - k,
{
    if k < s.len() {
        lemma_utf8_len_take_succ(s, k);
        lemma_utf8_len_monotone(s, k + 1);
        assert(char_utf8_len(s[k]) >= 1);
    } else {
        assert(s.take(k) =~= s);
    }
}

} // verus!
