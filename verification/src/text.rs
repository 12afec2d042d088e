//! Paths as texts: their segments, and the prefixes that compacted edges
//! bear.

use vstd::prelude::*;
use vstd::string::StringSliceAdditionalSpecFns;
use vstd::utf8::decode_first_scalar;
use vstd::utf8::decode_utf8;
use vstd::utf8::decode_utf8_encode_utf8;
use vstd::utf8::decode_utf8_split;
use vstd::utf8::encode_utf8;
use vstd::utf8::encode_utf8_decode_utf8;
use vstd::utf8::encode_utf8_valid_utf8;
use vstd::utf8::is_ascii_chars;
use vstd::utf8::is_ascii_chars_encode_utf8;
use vstd::utf8::is_char_boundary;
use vstd::utf8::is_char_boundary_iff_not_is_continuation_byte;
use vstd::utf8::is_char_boundary_start_end_of_seq;
use vstd::utf8::is_leading_byte_width_1;
use vstd::utf8::length_of_first_scalar;
use vstd::utf8::pop_first_scalar;
use vstd::utf8::valid_utf8;
use vstd::utf8::valid_utf8_split;

verus! {

/// Whether two texts hold the same characters.
pub fn str_eq(a: &str, b: &str) -> (same: bool)
    ensures
        same == (a@ == b@),
{
    let x = a.as_bytes();
    let y = b.as_bytes();
    proof {
        // A text is the decoding of its bytes, so equal bytes mean equal texts.
        encode_utf8_decode_utf8(a@);
        encode_utf8_decode_utf8(b@);
    }
    if x.len() != y.len() {
        return false;
    }
    let mut i: usize = 0;
    while i < x.len()
        invariant
            x.len() == y.len(),
            i <= x.len(),
            x@ == a.spec_bytes(),
            y@ == b.spec_bytes(),
            forall|j: int| 0 <= j < i ==> x@[j] == y@[j],
        decreases x.len() - i,
    {
        if x[i] != y[i] {
            return false;
        }
        i = i + 1;
    }
    assert(x@ =~= y@);
    true
}

/// Position of the first `/` in `s`, or `s.len()` when `s` holds none.
pub open spec fn slash_index(s: Seq<char>) -> int
    decreases s.len(),
{
    if s.len() == 0 || s[0] == '/' {
        0
    } else {
        1 + slash_index(s.skip(1))
    }
}

/// `slash_index` is the least position that holds a `/`, or the length.
pub proof fn lemma_slash_index(s: Seq<char>)
    ensures
        0 <= slash_index(s) <= s.len(),
        forall|j: int| 0 <= j < slash_index(s) ==> s[j] != '/',
        slash_index(s) < s.len() ==> s[slash_index(s)] == '/',
    decreases s.len(),
{
    if s.len() == 0 || s[0] == '/' {
    } else {
        lemma_slash_index(s.skip(1));
        assert forall|j: int| 0 <= j < slash_index(s) implies s[j] != '/' by {
            if j > 0 {
                assert(s[j] == s.skip(1)[j - 1]);
            }
        }
    }
}

/// A position that holds the first `/` of `s`, or ends `s` without one, is `slash_index(s)`.
pub proof fn lemma_slash_index_is(s: Seq<char>, i: int)
    requires
        0 <= i <= s.len(),
        forall|j: int| 0 <= j < i ==> s[j] != '/',
        i < s.len() ==> s[i] == '/',
    ensures
        slash_index(s) == i,
{
    lemma_slash_index(s);
    let k = slash_index(s);
    if k < i {
        assert(s[k] == '/');
    } else if i < k {
        assert(s[i] == '/');
    }
}

/// The text before the first `/` of a path: its first segment.
pub open spec fn first_segment(s: Seq<char>) -> Seq<char> {
    s.take(slash_index(s))
}

/// The text behind the first `/` of a path; empty when the path holds no `/`.
pub open spec fn after_first_segment(s: Seq<char>) -> Seq<char> {
    if slash_index(s) < s.len() {
        s.skip(slash_index(s) + 1)
    } else {
        Seq::empty()
    }
}

/// The bytes of the text `/`: the one byte 47.
proof fn lemma_slash_byte()
    ensures
        encode_utf8(seq!['/']) == seq![47u8],
{
    let slash = seq!['/'];
    assert(is_ascii_chars(slash));
    is_ascii_chars_encode_utf8(slash);
    assert(encode_utf8(slash) =~= seq![47u8]);
}

/// The bytes of two texts in a row are the bytes of the first and then
/// those of the second.
proof fn lemma_encode_concat(a: Seq<char>, b: Seq<char>)
    ensures
        encode_utf8(a + b) == encode_utf8(a) + encode_utf8(b),
    decreases a.len(),
{
    if a.len() == 0 {
        assert(a + b =~= b);
        assert(encode_utf8(a) + encode_utf8(b) =~= encode_utf8(b));
    } else {
        lemma_encode_concat(a.drop_first(), b);
        assert((a + b).drop_first() =~= a.drop_first() + b);
        assert((a + b)[0] == a[0]);
        assert(encode_utf8(a + b) =~= encode_utf8(a) + encode_utf8(b));
    }
}

/// A text that holds a `/` has the byte 47 among its bytes.
proof fn lemma_slash_has_byte(chars: Seq<char>)
    requires
        chars.contains('/'),
    ensures
        encode_utf8(chars).contains(47u8),
{
    let k = choose|k: int| 0 <= k < chars.len() && chars[k] == '/';
    let before = chars.take(k);
    let behind = chars.skip(k + 1);
    assert(chars =~= before + seq!['/'] + behind);
    lemma_encode_concat(before + seq!['/'], behind);
    lemma_encode_concat(before, seq!['/']);
    lemma_slash_byte();
    assert(encode_utf8(chars)[encode_utf8(before).len() as int] == 47u8);
}

/// Bytes without the byte 47 spell a text without `/`.
proof fn lemma_no_byte_no_slash(bytes: Seq<u8>)
    requires
        valid_utf8(bytes),
        forall|j: int| 0 <= j < bytes.len() ==> bytes[j] != 47u8,
    ensures
        !decode_utf8(bytes).contains('/'),
{
    if decode_utf8(bytes).contains('/') {
        lemma_slash_has_byte(decode_utf8(bytes));
        decode_utf8_encode_utf8(bytes);
        let j = choose|j: int| 0 <= j < bytes.len() && bytes[j] == 47u8;
        assert(bytes[j] != 47u8);
    }
}

/// The bytes of a text can be cut at a byte 47: the cut falls between two
/// characters, the byte is the character `/`, and the text is what the
/// bytes before it spell, the `/`, and what the bytes behind it spell.
proof fn lemma_cut_at_slash(chars: Seq<char>, at: int)
    requires
        0 <= at < encode_utf8(chars).len(),
        encode_utf8(chars)[at] == 47u8,
    ensures
        ({
            let bytes = encode_utf8(chars);
            let head = bytes.subrange(0, at);
            let tail = bytes.subrange(at, bytes.len() as int);
            let rest = tail.subrange(1, tail.len() as int);
            &&& is_char_boundary(bytes, at)
            &&& valid_utf8(head)
            &&& valid_utf8(tail)
            &&& is_char_boundary(tail, 1)
            &&& valid_utf8(rest)
            &&& chars == decode_utf8(head) + seq!['/'] + decode_utf8(rest)
        }),
{
    let bytes = encode_utf8(chars);
    let head = bytes.subrange(0, at);
    let tail = bytes.subrange(at, bytes.len() as int);
    let rest = tail.subrange(1, tail.len() as int);
    encode_utf8_valid_utf8(chars);
    encode_utf8_decode_utf8(chars);
    is_char_boundary_iff_not_is_continuation_byte(bytes, at);
    valid_utf8_split(bytes, at);
    decode_utf8_split(bytes, at);
    assert(tail[0] == 47u8);
    assert(is_leading_byte_width_1(tail[0]));
    assert(47u8 & 0x7F == 47u8) by (bit_vector);
    assert(decode_first_scalar(tail) == 47u32);
    assert(length_of_first_scalar(tail) == 1);
    assert(pop_first_scalar(tail) == rest);
    assert(valid_utf8(rest));
    assert(is_char_boundary(tail, 1)) by {
        reveal_with_fuel(is_char_boundary, 2);
    }
    assert(47u32 as char == '/');
    assert(decode_utf8(tail) == seq!['/'] + decode_utf8(rest));
    assert(chars =~= decode_utf8(head) + seq!['/'] + decode_utf8(rest));
}

/// Where the first byte 47 of a text's bytes stands at `at`, or the bytes
/// hold none and end at `at`: the first segment of the text is what the
/// bytes before `at` spell.
proof fn lemma_first_slash_byte(chars: Seq<char>, at: int)
    requires
        0 <= at <= encode_utf8(chars).len(),
        forall|j: int| 0 <= j < at ==> encode_utf8(chars)[j] != 47u8,
        at < encode_utf8(chars).len() ==> encode_utf8(chars)[at] == 47u8,
    ensures
        ({
            let bytes = encode_utf8(chars);
            let head = bytes.subrange(0, at);
            let tail = bytes.subrange(at, bytes.len() as int);
            &&& is_char_boundary(bytes, at)
            &&& valid_utf8(head)
            &&& valid_utf8(tail)
            &&& decode_utf8(head) == first_segment(chars)
            &&& at < bytes.len() ==> is_char_boundary(tail, 1) && valid_utf8(
                tail.subrange(1, tail.len() as int),
            ) && decode_utf8(tail.subrange(1, tail.len() as int)) == after_first_segment(chars)
                && chars.contains('/')
            &&& at == bytes.len() ==> after_first_segment(chars) == Seq::<char>::empty()
                && !chars.contains('/')
        }),
{
    let bytes = encode_utf8(chars);
    let head = bytes.subrange(0, at);
    let tail = bytes.subrange(at, bytes.len() as int);
    encode_utf8_valid_utf8(chars);
    encode_utf8_decode_utf8(chars);
    if at < bytes.len() {
        lemma_cut_at_slash(chars, at);
        let rest = tail.subrange(1, tail.len() as int);
        let first = decode_utf8(head);
        lemma_no_byte_no_slash(head);
        assert forall|j: int| 0 <= j < first.len() implies chars[j] != '/' by {
            assert(chars[j] == first[j]);
            assert(first.contains(first[j]));
        }
        assert(chars[first.len() as int] == '/');
        lemma_slash_index_is(chars, first.len() as int);
        assert(chars.take(first.len() as int) =~= first);
        assert(chars.skip(first.len() as int + 1) =~= decode_utf8(rest));
    } else {
        is_char_boundary_start_end_of_seq(bytes);
        assert(head =~= bytes);
        assert(tail =~= Seq::<u8>::empty());
        lemma_no_byte_no_slash(bytes);
        assert forall|j: int| 0 <= j < chars.len() implies chars[j] != '/' by {
            assert(chars.contains(chars[j]));
        }
        lemma_slash_index_is(chars, chars.len() as int);
        assert(chars.take(chars.len() as int) =~= chars);
    }
}

/// Where the byte 47 or the end of a text's bytes stands, from the front.
fn find_slash(bytes: &[u8]) -> (at: usize)
    ensures
        at <= bytes@.len(),
        forall|j: int| 0 <= j < at ==> bytes@[j] != 47u8,
        at < bytes@.len() ==> bytes@[at as int] == 47u8,
{
    let mut i: usize = 0;
    while i < bytes.len()
        invariant
            i <= bytes@.len(),
            forall|j: int| 0 <= j < i ==> bytes@[j] != 47u8,
        decreases bytes@.len() - i,
    {
        if bytes[i] == 47 {
            return i;
        }
        i = i + 1;
    }
    i
}

/// Whether a text holds a `/`.
pub fn contains_slash(text: &str) -> (found: bool)
    ensures
        found == text@.contains('/'),
{
    let bytes = text.as_bytes();
    let at = find_slash(bytes);
    proof {
        lemma_first_slash_byte(text@, at as int);
    }
    at < bytes.len()
}

/// Splits a path at its first `/` into the first segment and the remainder.
pub fn split_segment<'a>(path: &'a str) -> (r: (&'a str, &'a str))
    ensures
        r.0@ == first_segment(path@),
        r.1@ == after_first_segment(path@),
{
    let bytes = path.as_bytes();
    let at = find_slash(bytes);
    proof {
        lemma_first_slash_byte(path@, at as int);
    }
    let (head, tail) = path.split_at(at);
    proof {
        encode_utf8_decode_utf8(head@);
        encode_utf8_decode_utf8(tail@);
    }
    if at < bytes.len() {
        let (_slash, rest) = tail.split_at(1);
        proof {
            encode_utf8_decode_utf8(rest@);
        }
        (head, rest)
    } else {
        (head, tail)
    }
}

/// What is left of a path behind a compacted edge: the path is the edge's
/// prefix, or the prefix, a `/` and the rest. `None` where it is neither.
pub open spec fn edge_rest(prefix: Seq<char>, path: Seq<char>) -> Option<Seq<char>> {
    if path == prefix {
        Some(Seq::empty())
    } else if path.len() > prefix.len() && path.take(prefix.len() as int) == prefix
        && path[prefix.len() as int] == '/' {
        Some(path.skip(prefix.len() as int + 1))
    } else {
        None
    }
}

/// Two literal segments joined into one prefix.
pub open spec fn join_segments(head: Seq<char>, tail: Seq<char>) -> Seq<char> {
    head + seq!['/'] + tail
}

/// A text without `/` that a path starts with, before a `/` or the path's
/// end, is the path's first segment.
pub proof fn lemma_first_segment_is(path: Seq<char>, segment: Seq<char>)
    requires
        !segment.contains('/'),
        segment.len() <= path.len(),
        path.take(segment.len() as int) == segment,
        segment.len() < path.len() ==> path[segment.len() as int] == '/',
    ensures
        first_segment(path) == segment,
        slash_index(path) == segment.len(),
{
    assert forall|j: int| 0 <= j < segment.len() implies path[j] != '/' by {
        assert(path.take(segment.len() as int)[j] == segment[j]);
        assert(segment.contains(segment[j]));
    }
    lemma_slash_index_is(path, segment.len() as int);
}

/// Along a compacted edge of one segment a path goes as along a literal
/// edge: the segment is the path's first, and what is left is what stands
/// behind the first segment.
pub proof fn lemma_edge_rest_segment(segment: Seq<char>, path: Seq<char>)
    requires
        !segment.contains('/'),
        path.len() > 0,
    ensures
        edge_rest(segment, path) == (if first_segment(path) == segment {
            Some(after_first_segment(path))
        } else {
            None
        }),
{
    lemma_slash_index(path);
    let at = slash_index(path);
    if first_segment(path) == segment {
        assert(segment.len() == at);
        if at == path.len() {
            assert(path.take(at) =~= path);
            assert(after_first_segment(path) =~= Seq::<char>::empty());
        } else {
            assert(path != segment);
        }
    } else {
        if edge_rest(segment, path) is Some {
            if path == segment {
                assert(path.take(segment.len() as int) =~= segment);
            }
            lemma_first_segment_is(path, segment);
        }
    }
}

/// Along a compacted edge of several segments a path goes as along the
/// literal edge of the first and then along the compacted edge of the rest.
pub proof fn lemma_edge_rest_join(head: Seq<char>, tail: Seq<char>, path: Seq<char>)
    requires
        !head.contains('/'),
        tail.len() > 0,
        path.len() > 0,
    ensures
        edge_rest(join_segments(head, tail), path) == (if first_segment(path) == head {
            edge_rest(tail, after_first_segment(path))
        } else {
            None
        }),
{
    lemma_slash_index(path);
    let at = slash_index(path);
    let joined = join_segments(head, tail);
    let n = head.len() as int;
    assert(joined.len() == n + 1 + tail.len());
    assert(joined.take(n) =~= head);
    assert(joined[n] == '/');
    assert(joined.skip(n + 1) =~= tail);
    if first_segment(path) == head {
        assert(at == n);
        let rest = after_first_segment(path);
        if at == path.len() {
            assert(rest =~= Seq::<char>::empty());
            assert(path != joined);
        } else {
            assert(rest == path.skip(n + 1));
            assert(path.take(n) == head);
            if rest == tail {
                assert(path =~= joined);
            }
            if path == joined {
                assert(rest =~= tail);
            }
            if path.len() > joined.len() && path.take(joined.len() as int) == joined && path[joined.len() as int] == '/' {
                assert(rest.take(tail.len() as int) =~= tail) by {
                    assert forall|j: int| 0 <= j < tail.len() implies rest[j] == tail[j] by {
                        assert(path.take(joined.len() as int)[n + 1 + j] == joined[n + 1 + j]);
                    }
                }
                assert(rest[tail.len() as int] == '/');
                assert(path.skip(joined.len() as int + 1) =~= rest.skip(tail.len() as int + 1));
            }
            if rest.len() > tail.len() && rest.take(tail.len() as int) == tail && rest[tail.len() as int] == '/' {
                assert(path.take(joined.len() as int) =~= joined) by {
                    assert forall|j: int| 0 <= j < joined.len() implies path[j] == joined[j] by {
                        if j < n {
                            assert(path.take(n)[j] == head[j]);
                        } else if j > n {
                            assert(rest.take(tail.len() as int)[j - n - 1] == tail[j - n - 1]);
                        }
                    }
                }
                assert(path[joined.len() as int] == rest[tail.len() as int]);
                assert(path.skip(joined.len() as int + 1) =~= rest.skip(tail.len() as int + 1));
            }
        }
    } else {
        if edge_rest(joined, path) is Some {
            assert(path.len() >= joined.len());
            assert(path.take(n) =~= head) by {
                assert forall|j: int| 0 <= j < n implies path[j] == head[j] by {
                    if path == joined {
                    } else {
                        assert(path.take(joined.len() as int)[j] == joined[j]);
                    }
                }
            }
            assert(path[n] == '/') by {
                if path == joined {
                } else {
                    assert(path.take(joined.len() as int)[n] == joined[n]);
                }
            }
            lemma_first_segment_is(path, head);
        }
    }
}

/// The bytes of a path that goes along a compacted edge open with the
/// bytes of the edge's prefix, and go on with the byte 47 unless they end
/// there, which they do exactly where the path is the prefix.
proof fn lemma_edge_rest_bytes(prefix: Seq<char>, path: Seq<char>)
    requires
        edge_rest(prefix, path) is Some,
    ensures
        ({
            let edge = encode_utf8(prefix);
            let bytes = encode_utf8(path);
            &&& edge.len() <= bytes.len()
            &&& bytes.subrange(0, edge.len() as int) == edge
            &&& bytes.len() > edge.len() ==> bytes[edge.len() as int] == 47u8
        }),
{
    let edge = encode_utf8(prefix);
    let bytes = encode_utf8(path);
    if path == prefix {
        assert(bytes.subrange(0, edge.len() as int) =~= edge);
    } else {
        let n = prefix.len() as int;
        let rest = path.skip(n + 1);
        assert(path =~= path.take(n) + seq!['/'] + rest);
        lemma_encode_concat(prefix + seq!['/'], rest);
        lemma_encode_concat(prefix, seq!['/']);
        lemma_slash_byte();
        assert(bytes == edge + seq![47u8] + encode_utf8(rest));
        assert(bytes.subrange(0, edge.len() as int) =~= edge);
    }
}

/// Follows a compacted edge: what is left of `path` behind `prefix`.
pub fn strip_edge<'a>(prefix: &str, path: &'a str) -> (rest: Option<&'a str>)
    ensures
        match rest {
            Some(left) => edge_rest(prefix@, path@) == Some(left@),
            None => edge_rest(prefix@, path@) is None,
        },
{
    let edge = prefix.as_bytes();
    let bytes = path.as_bytes();
    let n = edge.len();
    let m = bytes.len();
    proof {
        if edge_rest(prefix@, path@) is Some {
            lemma_edge_rest_bytes(prefix@, path@);
        }
        encode_utf8_valid_utf8(path@);
        encode_utf8_decode_utf8(path@);
        encode_utf8_decode_utf8(prefix@);
    }
    if m < n {
        return None;
    }
    let mut i: usize = 0;
    while i < n
        invariant
            n == edge@.len(),
            m == bytes@.len(),
            n <= m,
            i <= n,
            edge@ == prefix.spec_bytes(),
            bytes@ == path.spec_bytes(),
            edge_rest(prefix@, path@) is Some ==> bytes@.subrange(0, n as int) == edge@,
            forall|j: int| 0 <= j < i ==> edge@[j] == bytes@[j],
        decreases n - i,
    {
        if edge[i] != bytes[i] {
            proof {
                if edge_rest(prefix@, path@) is Some {
                    assert(bytes@.subrange(0, n as int)[i as int] == edge@[i as int]);
                }
            }
            return None;
        }
        i = i + 1;
    }
    proof {
        assert(bytes@.subrange(0, n as int) =~= edge@);
    }
    if m == n {
        proof {
            assert(bytes@ =~= edge@);
            is_char_boundary_start_end_of_seq(bytes@);
        }
        let (_whole, left) = path.split_at(m);
        proof {
            encode_utf8_decode_utf8(left@);
            assert(left.spec_bytes() =~= Seq::<u8>::empty());
            assert(left@ =~= Seq::<char>::empty());
        }
        return Some(left);
    }
    if bytes[n] != 47 {
        return None;
    }
    proof {
        lemma_cut_at_slash(path@, n as int);
        let head = bytes@.subrange(0, n as int);
        let tail = bytes@.subrange(n as int, m as int);
        let behind = decode_utf8(tail.subrange(1, tail.len() as int));
        assert(head == edge@);
        assert(decode_utf8(head) == prefix@);
        assert(path@ == prefix@ + seq!['/'] + behind);
        assert(path@.take(prefix@.len() as int) =~= prefix@);
        assert(path@[prefix@.len() as int] == '/');
        assert(path@.skip(prefix@.len() as int + 1) =~= behind);
    }
    let (_head, tail) = path.split_at(n);
    let (_slash, left) = tail.split_at(1);
    proof {
        encode_utf8_decode_utf8(left@);
    }
    Some(left)
}

} // verus!
