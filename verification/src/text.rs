//! The order of names, and what a name or a text begins with.

use vstd::prelude::*;
use vstd::std_specs::iter::IteratorSpec;
use vstd::string::{StrSliceExecFns, StringSliceAdditionalSpecFns};
use vstd::utf8::{encode_scalar, encode_utf8, encode_utf8_decode_utf8};

verus! {

/// `a` and `b` hold the same byte at every index below `k`.
pub open spec fn agree_before(a: Seq<u8>, b: Seq<u8>, k: int) -> bool {
    forall|j: int| 0 <= j < k ==> a[j] == b[j]
}

/// `a` comes no later than `b` in the lexicographic order of bytes: `a` is a
/// prefix of `b`, or `a` holds the smaller byte where the two first differ.
pub open spec fn bytes_le(a: Seq<u8>, b: Seq<u8>) -> bool {
    ||| (a.len() <= b.len() && agree_before(a, b, a.len() as int))
    ||| exists|k: int| 0 <= k < a.len() && k < b.len() && agree_before(a, b, k) && a[k] < b[k]
}

/// The first index from `from` on at which `a` and `b` differ or one of them ends.
proof fn first_difference(a: Seq<u8>, b: Seq<u8>, from: int) -> (k: int)
    requires
        0 <= from <= a.len(),
        from <= b.len(),
        agree_before(a, b, from),
    ensures
        from <= k <= a.len(),
        k <= b.len(),
        agree_before(a, b, k),
        k < a.len() && k < b.len() ==> a[k] != b[k],
    decreases a.len() - from,
{
    if from < a.len() && from < b.len() && a[from] == b[from] {
        first_difference(a, b, from + 1)
    } else {
        from
    }
}

/// Of two byte strings one comes no later than the other.
pub proof fn lemma_bytes_le_total(a: Seq<u8>, b: Seq<u8>)
    ensures
        bytes_le(a, b) || bytes_le(b, a),
{
    let k = first_difference(a, b, 0);
    if k < a.len() && k < b.len() {
        if a[k] < b[k] {
            assert(bytes_le(a, b));
        } else {
            assert(agree_before(b, a, k));
            assert(bytes_le(b, a));
        }
    } else if k == a.len() {
        assert(bytes_le(a, b));
    } else {
        assert(agree_before(b, a, k));
        assert(bytes_le(b, a));
    }
}

/// The order of bytes is transitive.
pub proof fn lemma_bytes_le_transitive(a: Seq<u8>, b: Seq<u8>, c: Seq<u8>)
    requires
        bytes_le(a, b),
        bytes_le(b, c),
    ensures
        bytes_le(a, c),
{
    let ab_prefix = a.len() <= b.len() && agree_before(a, b, a.len() as int);
    let bc_prefix = b.len() <= c.len() && agree_before(b, c, b.len() as int);
    if ab_prefix {
        if bc_prefix {
            assert(agree_before(a, c, a.len() as int));
        } else {
            let k = choose|k: int|
                0 <= k < b.len() && k < c.len() && agree_before(b, c, k) && b[k] < c[k];
            if k < a.len() {
                assert(agree_before(a, c, k));
                assert(a[k] < c[k]);
            } else {
                assert(agree_before(a, c, a.len() as int));
            }
        }
    } else {
        let i = choose|i: int|
            0 <= i < a.len() && i < b.len() && agree_before(a, b, i) && a[i] < b[i];
        if bc_prefix {
            assert(agree_before(a, c, i));
            assert(a[i] < c[i]);
        } else {
            let k = choose|k: int|
                0 <= k < b.len() && k < c.len() && agree_before(b, c, k) && b[k] < c[k];
            if i <= k {
                assert(agree_before(a, c, i));
                assert(a[i] < c[i]);
            } else {
                assert(agree_before(a, c, k));
                assert(a[k] < c[k]);
            }
        }
    }
}

/// Two byte strings of which each comes no later than the other are equal.
pub proof fn lemma_bytes_le_antisymmetric(a: Seq<u8>, b: Seq<u8>)
    requires
        bytes_le(a, b),
        bytes_le(b, a),
    ensures
        a == b,
{
    let k = first_difference(a, b, 0);
    assert(agree_before(b, a, k));
    if k < a.len() && k < b.len() {
        if a[k] < b[k] {
            assert(!bytes_le(b, a));
        } else {
            assert(!bytes_le(a, b));
        }
    } else if k < a.len() {
        assert(!bytes_le(a, b));
    } else if k < b.len() {
        assert(!bytes_le(b, a));
    } else {
        assert(a =~= b);
    }
}

/// Whether `a` comes no later than `b` in the order of their UTF-8 bytes, which
/// is the order in which Rust compares strings.
pub fn str_le(a: &str, b: &str) -> (r: bool)
    ensures
        r == bytes_le(a.spec_bytes(), b.spec_bytes()),
{
    let left = a.as_bytes();
    let right = b.as_bytes();
    let mut i: usize = 0;
    while i < left.len() && i < right.len()
        invariant
            left@ == a.spec_bytes(),
            right@ == b.spec_bytes(),
            i <= left.len(),
            i <= right.len(),
            agree_before(left@, right@, i as int),
        decreases left.len() - i,
    {
        if left[i] != right[i] {
            proof {
                let k = i as int;
                if left@[k] < right@[k] {
                    assert(agree_before(left@, right@, k) && left@[k] < right@[k]);
                } else {
                    assert(agree_before(right@, left@, k) && right@[k] < left@[k]);
                    assert(bytes_le(right@, left@));
                    if bytes_le(left@, right@) {
                        lemma_bytes_le_antisymmetric(left@, right@);
                    }
                }
            }
            return left[i] < right[i];
        }
        i = i + 1;
    }
    left.len() <= right.len()
}

/// The characters of a string that may be missing.
pub open spec fn text_of(text: Option<String>) -> Option<Seq<char>> {
    match text {
        Some(text) => Some(text@),
        None => None,
    }
}

/// A text has no more characters than its UTF-8 form has bytes.
pub proof fn lemma_chars_fit_in_bytes(chars: Seq<char>)
    ensures
        chars.len() <= encode_utf8(chars).len(),
    decreases chars.len(),
{
    if chars.len() > 0 {
        lemma_chars_fit_in_bytes(chars.drop_first());
        assert(encode_scalar(chars[0] as u32).len() >= 1);
    }
}

/// Whether two strings hold the same characters.
pub fn same_text(a: &str, b: &str) -> (r: bool)
    ensures
        r == (a@ == b@),
{
    let left = a.as_bytes();
    let right = b.as_bytes();
    proof {
        encode_utf8_decode_utf8(a@);
        encode_utf8_decode_utf8(b@);
    }
    if left.len() != right.len() {
        return false;
    }
    let mut i: usize = 0;
    while i < left.len()
        invariant
            left@ == a.spec_bytes(),
            right@ == b.spec_bytes(),
            left.len() == right.len(),
            i <= left.len(),
            agree_before(left@, right@, i as int),
        decreases left.len() - i,
    {
        if left[i] != right[i] {
            return false;
        }
        i = i + 1;
    }
    proof {
        assert(left@ =~= right@);
    }
    true
}

/// The first line of a text, without the line feed that ends it, or the
/// carriage return and line feed. A text without a line feed is one line.
pub open spec fn first_line(text: Seq<char>) -> Seq<char> {
    match text.index_of_first('\n') {
        Some(end) => if end > 0 && text[end - 1] == '\r' {
            text.take(end - 1)
        } else {
            text.take(end)
        },
        None => text,
    }
}

/// The first line of `text`.
pub fn first_line_of(text: &str) -> (line: &str)
    ensures
        line@ == first_line(text@),
{
    broadcast use vstd::string::group_string_axioms;

    let limit = text.as_bytes().len();
    let mut chars = text.chars();
    let mut end: usize = 0;
    let mut after_return = false;
    proof {
        lemma_chars_fit_in_bytes(text@);
        text@.index_of_first_ensures('\n');
        assert(text@.skip(0) =~= text@);
    }
    loop
        invariant
            text@.len() <= limit,
            end <= text@.len(),
            chars.remaining() == text@.skip(end as int),
            chars.decrease() is Some,
            forall|j: int| 0 <= j < end ==> text@[j] != '\n',
            after_return == (end > 0 && text@[end - 1] == '\r'),
        decreases text@.len() - end,
    {
        let ghost before = chars;
        match chars.next() {
            Some(c) => {
                assert(c == text@[end as int]);
                assert(before.remaining().drop_first() =~= text@.skip(end + 1));
                if c == '\n' {
                    proof {
                        text@.index_of_first_ensures('\n');
                        assert(text@.contains('\n'));
                        assert(text@.index_of_first('\n') == Some(end as int));
                    }
                    if after_return {
                        return text.substring_char(0, end - 1);
                    } else {
                        return text.substring_char(0, end);
                    }
                }
                after_return = c == '\r';
                end = end + 1;
            },
            None => {
                proof {
                    text@.index_of_first_ensures('\n');
                    assert(end == text@.len());
                }
                return text;
            },
        }
    }
}

/// The extension of a file name: what follows its last dot. A name without a
/// dot has none, nor has one whose only dot is its first character.
pub open spec fn extension_of(file_name: Seq<char>) -> Seq<char> {
    match file_name.index_of_last('.') {
        Some(dot) => if dot > 0 {
            file_name.skip(dot + 1)
        } else {
            Seq::empty()
        },
        None => Seq::empty(),
    }
}

/// The extension of `file_name`, empty where it has none.
pub fn extension(file_name: &str) -> (r: &str)
    ensures
        r@ == extension_of(file_name@),
{
    broadcast use vstd::string::group_string_axioms;

    let limit = file_name.as_bytes().len();
    let mut chars = file_name.chars();
    let mut seen: usize = 0;
    let mut dot: Option<usize> = None;
    proof {
        lemma_chars_fit_in_bytes(file_name@);
        assert(file_name@.skip(0) =~= file_name@);
    }
    loop
        invariant_except_break
            chars.remaining() == file_name@.skip(seen as int),
            chars.decrease() is Some,
        invariant
            file_name@.len() <= limit,
            seen <= file_name@.len(),
            match dot {
                Some(at) => at < seen && file_name@[at as int] == '.' && forall|j: int|
                    at < j < seen ==> file_name@[j] != '.',
                None => forall|j: int| 0 <= j < seen ==> file_name@[j] != '.',
            },
        ensures
            seen == file_name@.len(),
        decreases file_name@.len() - seen,
    {
        let ghost before = chars;
        match chars.next() {
            Some(c) => {
                assert(c == file_name@[seen as int]);
                assert(before.remaining().drop_first() =~= file_name@.skip(seen + 1));
                if c == '.' {
                    dot = Some(seen);
                }
                seen = seen + 1;
            },
            None => {
                break;
            },
        }
    }
    proof {
        let name = file_name@;
        name.index_of_last_ensures('.');
        match dot {
            Some(at) => {
                assert(name.contains('.'));
                assert(name.index_of_last('.') == Some(at as int));
                assert(name.skip(at + 1) =~= name.subrange(at + 1, seen as int));
            },
            None => {
                assert(!name.contains('.'));
                assert(name.subrange(seen as int, seen as int) =~= Seq::<char>::empty());
            },
        }
    }
    match dot {
        Some(at) => if at > 0 {
            file_name.substring_char(at + 1, seen)
        } else {
            file_name.substring_char(seen, seen)
        },
        None => file_name.substring_char(seen, seen),
    }
}

} // verus!
