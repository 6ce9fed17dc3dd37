//! Byte-level views of text: slicing by byte ranges, comparing, splitting into lines.
use vstd::prelude::*;
use vstd::string::StringSliceAdditionalSpecFns;
use vstd::utf8::*;

verus! {

broadcast use {
    encode_utf8_valid_utf8,
    encode_utf8_decode_utf8,
    is_char_boundary_start_end_of_seq,
    is_char_boundary_iff_not_is_continuation_byte,
    valid_utf8_split,
};

/// A character boundary of a text is one of every prefix that extends past it.
pub proof fn lemma_prefix_boundary(b: Seq<u8>, e: int, k: int)
    requires
        valid_utf8(b),
        0 <= k <= e <= b.len(),
        is_char_boundary(b, e),
        is_char_boundary(b, k),
    ensures
        valid_utf8(b.subrange(0, e)),
        is_char_boundary(b.subrange(0, e), k),
{
    let p = b.subrange(0, e);
    assert(valid_utf8(p));
    if k < e {
        assert(p[k] == b[k]);
        is_char_boundary_iff_not_is_continuation_byte(b, k);
        is_char_boundary_iff_not_is_continuation_byte(p, k);
    } else {
        assert(p.len() == e);
        is_char_boundary_start_end_of_seq(p);
    }
}

/// The text of `s` between the byte offsets `start` and `end`.
pub fn substring<'a>(s: &'a str, start: usize, end: usize) -> (r: &'a str)
    requires
        start <= end <= s.spec_bytes().len(),
        is_char_boundary(s.spec_bytes(), start as int),
        is_char_boundary(s.spec_bytes(), end as int),
    ensures
        r.spec_bytes() == s.spec_bytes().subrange(start as int, end as int),
{
    let (left, _) = s.split_at(end);
    proof {
        lemma_prefix_boundary(s.spec_bytes(), end as int, start as int);
    }
    let (_, mid) = left.split_at(start);
    proof {
        assert(mid.spec_bytes() =~= s.spec_bytes().subrange(start as int, end as int));
    }
    mid
}

/// Whether the two texts are equal, compared byte by byte.
pub fn str_eq(a: &str, b: &str) -> (r: bool)
    ensures
        r == (a@ == b@),
{
    let x = a.as_bytes();
    let y = b.as_bytes();
    if x.len() != y.len() {
        proof {
            if a@ == b@ {
                assert(a.spec_bytes() == b.spec_bytes());
            }
        }
        return false;
    }
    let mut i: usize = 0;
    while i < x.len()
        invariant
            x@ == a.spec_bytes(),
            y@ == b.spec_bytes(),
            x@.len() == y@.len(),
            i <= x@.len(),
            forall|j: int| 0 <= j < i ==> x@[j] == y@[j],
        decreases x.len() - i,
    {
        if x[i] != y[i] {
            proof {
                if a@ == b@ {
                    assert(a.spec_bytes() == b.spec_bytes());
                }
            }
            return false;
        }
        i = i + 1;
    }
    proof {
        assert(x@ =~= y@);
        assert(decode_utf8(encode_utf8(a@)) == a@);
    }
    true
}


/// The index of the first line feed in `b`, or the length of `b` when it has none.
pub open spec fn first_newline(b: Seq<u8>) -> int
    decreases b.len(),
{
    if b.len() == 0 {
        0
    } else if b[0] == 10 {
        0
    } else {
        1 + first_newline(b.drop_first())
    }
}

proof fn lemma_first_newline(b: Seq<u8>, n: int)
    requires
        0 <= n <= b.len(),
        forall|j: int| 0 <= j < n ==> b[j] != 10,
        n == b.len() || b[n] == 10,
    ensures
        first_newline(b) == n,
    decreases n,
{
    if n > 0 {
        lemma_first_newline(b.drop_first(), n - 1);
    }
}

pub proof fn lemma_first_newline_bounds(b: Seq<u8>)
    ensures
        0 <= first_newline(b) <= b.len(),
    decreases b.len(),
{
    if b.len() > 0 && b[0] != 10 {
        lemma_first_newline_bounds(b.drop_first());
    }
}

/// A line without the carriage return that ends it, if it has one.
pub open spec fn strip_cr(line: Seq<u8>) -> Seq<u8> {
    if line.len() > 0 && line.last() == 13 {
        line.drop_last()
    } else {
        line
    }
}

/// The lines of the text whose UTF-8 bytes are `b`, as `str::lines` gives
/// them: split at each line feed, a carriage return before it dropped, and
/// no empty line after a final line feed.
pub open spec fn lines_of(b: Seq<u8>) -> Seq<Seq<u8>>
    decreases b.len(),
{
    if b.len() == 0 {
        seq![]
    } else {
        let n = first_newline(b);
        proof {
            lemma_first_newline_bounds(b);
        }
        if n < b.len() {
            seq![strip_cr(b.subrange(0, n))] + lines_of(b.subrange(n + 1, b.len() as int))
        } else {
            seq![b]
        }
    }
}

pub open spec fn bytes_of_strs(v: Seq<&str>) -> Seq<Seq<u8>> {
    v.map_values(|l: &str| l.spec_bytes())
}

proof fn lemma_boundary_after_ascii(t: Seq<u8>)
    requires
        valid_utf8(t),
        t.len() > 0,
        t[0] < 0x80,
    ensures
        is_char_boundary(t, 1),
{
    reveal_with_fuel(is_char_boundary, 2);
    assert(length_of_first_scalar(t) == 1);
    is_char_boundary_start_end_of_seq(pop_first_scalar(t));
}

/// `line` without its final carriage return.
fn without_cr<'a>(line: &'a str) -> (r: &'a str)
    ensures
        r.spec_bytes() == strip_cr(line.spec_bytes()),
{
    let b = line.as_bytes();
    if b.len() > 0 && b[b.len() - 1] == 13u8 {
        proof {
            is_char_boundary_iff_not_is_continuation_byte(line.spec_bytes(), b.len() - 1);
        }
        let (head, _) = line.split_at(b.len() - 1);
        proof {
            assert(head.spec_bytes() =~= line.spec_bytes().drop_last());
        }
        head
    } else {
        line
    }
}

/// The lines of `s`, as `str::lines` gives them.
pub fn split_lines<'a>(s: &'a str) -> (r: Vec<&'a str>)
    ensures
        bytes_of_strs(r@) == lines_of(s.spec_bytes()),
{
    let mut out: Vec<&'a str> = Vec::new();
    let mut rest: &'a str = s;
    while !rest.is_empty()
        invariant
            lines_of(s.spec_bytes()) == bytes_of_strs(out@) + lines_of(rest.spec_bytes()),
        decreases rest.spec_bytes().len(),
    {
        let bytes = rest.as_bytes();
        let ghost rb = rest.spec_bytes();
        let mut n: usize = 0;
        while n < bytes.len() && bytes[n] != 10u8
            invariant
                bytes@ == rb,
                n <= bytes@.len(),
                forall|j: int| 0 <= j < n ==> rb[j] != 10,
            decreases bytes.len() - n,
        {
            n = n + 1;
        }
        proof {
            lemma_first_newline(rb, n as int);
        }
        let ghost old_out = out@;
        if n < bytes.len() {
            proof {
                is_char_boundary_iff_not_is_continuation_byte(rb, n as int);
            }
            let (raw, tail) = rest.split_at(n);
            proof {
                assert(tail.spec_bytes() =~= rb.subrange(n as int, rb.len() as int));
                lemma_boundary_after_ascii(tail.spec_bytes());
            }
            let line = without_cr(raw);
            let (_, next) = tail.split_at(1);
            proof {
                assert(raw.spec_bytes() =~= rb.subrange(0, n as int));
                assert(next.spec_bytes() =~= rb.subrange(n + 1, rb.len() as int));
            }
            out.push(line);
            rest = next;
            proof {
                assert(bytes_of_strs(out@) =~= bytes_of_strs(old_out).push(line.spec_bytes()));
                assert(bytes_of_strs(out@) + lines_of(rest.spec_bytes()) =~= bytes_of_strs(old_out)
                    + lines_of(rb));
            }
        } else {
            let (_, next) = rest.split_at(bytes.len());
            out.push(rest);
            rest = next;
            proof {
                assert(rest.spec_bytes() =~= Seq::<u8>::empty());
                assert(bytes_of_strs(out@) =~= bytes_of_strs(old_out).push(rb));
                assert(bytes_of_strs(out@) + lines_of(rest.spec_bytes()) =~= bytes_of_strs(old_out)
                    + lines_of(rb));
            }
        }
    }
    proof {
        assert(rest@ =~= Seq::<char>::empty());
        assert(rest.spec_bytes() =~= Seq::<u8>::empty());
        assert(bytes_of_strs(out@) + lines_of(rest.spec_bytes()) =~= bytes_of_strs(out@));
    }
    out
}


/// Whether `c` has the Unicode `White_Space` property.
pub open spec fn is_white_space(c: char) -> bool {
    let u = c as u32;
    ||| 0x09 <= u <= 0x0d
    ||| u == 0x20
    ||| u == 0x85
    ||| u == 0xa0
    ||| u == 0x1680
    ||| 0x2000 <= u <= 0x200a
    ||| u == 0x2028
    ||| u == 0x2029
    ||| u == 0x202f
    ||| u == 0x205f
    ||| u == 0x3000
}

/// `s` without its leading and trailing white space.
pub open spec fn trim_chars(s: Seq<char>) -> Seq<char>
    decreases s.len(),
{
    if s.len() > 0 && is_white_space(s[0]) {
        trim_chars(s.drop_first())
    } else if s.len() > 0 && is_white_space(s.last()) {
        trim_chars(s.drop_last())
    } else {
        s
    }
}

/// `str::trim`: the slice of `s` without leading and trailing white space,
/// white space being the characters with the Unicode `White_Space` property.
#[verifier::external_body]
pub(crate) fn trim<'a>(s: &'a str) -> (r: &'a str)
    ensures
        r@ == trim_chars(s@),
{
    s.trim()
}


/// Lexicographic order of byte sequences, as `Ord` orders `[u8]`.
pub open spec fn bytes_lt(a: Seq<u8>, b: Seq<u8>) -> bool
    decreases a.len(),
{
    if a.len() == 0 {
        b.len() > 0
    } else if b.len() == 0 {
        false
    } else if a[0] != b[0] {
        a[0] < b[0]
    } else {
        bytes_lt(a.drop_first(), b.drop_first())
    }
}

/// The order of texts that `Ord` gives `str` and `String`: the order of their UTF-8 bytes.
pub open spec fn text_lt(a: Seq<char>, b: Seq<char>) -> bool {
    bytes_lt(encode_utf8(a), encode_utf8(b))
}

pub proof fn lemma_bytes_lt_irreflexive(a: Seq<u8>)
    ensures
        !bytes_lt(a, a),
    decreases a.len(),
{
    if a.len() > 0 {
        lemma_bytes_lt_irreflexive(a.drop_first());
    }
}

pub proof fn lemma_bytes_lt_transitive(a: Seq<u8>, b: Seq<u8>, c: Seq<u8>)
    requires
        bytes_lt(a, b),
        bytes_lt(b, c),
    ensures
        bytes_lt(a, c),
    decreases a.len(),
{
    if a.len() > 0 && b.len() > 0 && c.len() > 0 && a[0] == b[0] && b[0] == c[0] {
        lemma_bytes_lt_transitive(a.drop_first(), b.drop_first(), c.drop_first());
    }
}

pub proof fn lemma_bytes_lt_total(a: Seq<u8>, b: Seq<u8>)
    requires
        a != b,
    ensures
        bytes_lt(a, b) || bytes_lt(b, a),
    decreases a.len(),
{
    if a.len() > 0 && b.len() > 0 && a[0] == b[0] {
        if a.drop_first() == b.drop_first() {
            assert(a =~= seq![a[0]] + a.drop_first());
            assert(b =~= seq![b[0]] + b.drop_first());
        }
        lemma_bytes_lt_total(a.drop_first(), b.drop_first());
    } else if a.len() == 0 && b.len() == 0 {
        assert(a =~= b);
    }
}

pub proof fn lemma_text_lt_total(a: Seq<char>, b: Seq<char>)
    requires
        a != b,
    ensures
        text_lt(a, b) || text_lt(b, a),
{
    if encode_utf8(a) == encode_utf8(b) {
        assert(decode_utf8(encode_utf8(a)) == a);
        assert(decode_utf8(encode_utf8(b)) == b);
    }
    lemma_bytes_lt_total(encode_utf8(a), encode_utf8(b));
}

/// Whether `a` comes before `b` in the order of `str`.
pub fn text_less(a: &str, b: &str) -> (r: bool)
    ensures
        r == text_lt(a@, b@),
{
    let x = a.as_bytes();
    let y = b.as_bytes();
    let mut i: usize = 0;
    proof {
        assert(x@.subrange(0, x@.len() as int) =~= x@);
        assert(y@.subrange(0, y@.len() as int) =~= y@);
    }
    while i < x.len() && i < y.len() && x[i] == y[i]
        invariant
            x@ == a.spec_bytes(),
            y@ == b.spec_bytes(),
            i <= x@.len(),
            i <= y@.len(),
            bytes_lt(x@, y@) == bytes_lt(x@.subrange(i as int, x@.len() as int), y@.subrange(i as int, y@.len() as int)),
        decreases x.len() - i,
    {
        proof {
            let xs = x@.subrange(i as int, x@.len() as int);
            let ys = y@.subrange(i as int, y@.len() as int);
            assert(xs.drop_first() =~= x@.subrange(i + 1, x@.len() as int));
            assert(ys.drop_first() =~= y@.subrange(i + 1, y@.len() as int));
        }
        i = i + 1;
    }
    proof {
        let xs = x@.subrange(i as int, x@.len() as int);
        let ys = y@.subrange(i as int, y@.len() as int);
        if i < x.len() && i < y.len() {
            assert(xs[0] == x@[i as int]);
            assert(ys[0] == y@[i as int]);
        }
    }
    if i < x.len() && i < y.len() {
        x[i] < y[i]
    } else {
        i == x.len() && i < y.len()
    }
}

/// `v` is ordered strictly ascending by `text_lt`.
pub open spec fn strictly_ascending(v: Seq<Seq<char>>) -> bool {
    forall|i: int, j: int| 0 <= i < j < v.len() ==> text_lt(#[trigger] v[i], #[trigger] v[j])
}

pub open spec fn string_views(v: Seq<String>) -> Seq<Seq<char>> {
    v.map_values(|s: String| s@)
}

/// The texts of `items` without repetitions, in the order of `str`.
pub fn sorted_unique(items: Vec<String>) -> (r: Vec<String>)
    ensures
        strictly_ascending(string_views(r@)),
        string_views(r@).to_set() == string_views(items@).to_set(),
{
    let mut out: Vec<String> = Vec::new();
    let mut k: usize = 0;
    while k < items.len()
        invariant
            k <= items.len(),
            strictly_ascending(string_views(out@)),
            string_views(out@).to_set() == string_views(items@.subrange(0, k as int)).to_set(),
        decreases items.len() - k,
    {
        let s = &items[k];
        let mut pos: usize = 0;
        while pos < out.len() && text_less(out[pos].as_str(), s.as_str())
            invariant
                pos <= out.len(),
                forall|j: int| 0 <= j < pos ==> text_lt(#[trigger] out@[j]@, s@),
            decreases out.len() - pos,
        {
            pos = pos + 1;
        }
        let ghost old_out = string_views(out@);
        let ghost prev_items = string_views(items@.subrange(0, k as int));
        proof {
            assert(string_views(items@.subrange(0, k + 1)) =~= prev_items.push(s@));
        }
        if pos < out.len() && str_eq(out[pos].as_str(), s.as_str()) {
            proof {
                assert(old_out[pos as int] == s@);
                assert(old_out.to_set() =~= prev_items.push(s@).to_set()) by {
                    Seq::<Seq<char>>::lemma_to_set_insert_commutes(prev_items, s@);
                    assert(prev_items.push(s@) =~= prev_items + seq![s@]);
                    assert(old_out.to_set().contains(s@));
                    assert(old_out.to_set().insert(s@) =~= old_out.to_set());
                }
            }
        } else {
            let c = s.clone();
            out.insert(pos, c);
            proof {
                let nv = string_views(out@);
                assert(nv =~= old_out.insert(pos as int, s@));
                assert forall|j: int| pos < j < old_out.len() implies text_lt(s@, old_out[j]) by {
                    if pos < old_out.len() {
                        assert(!text_lt(old_out[pos as int], s@));
                        assert(old_out[pos as int] != s@);
                        lemma_text_lt_total(old_out[pos as int], s@);
                        if pos < j {
                            assert(text_lt(old_out[pos as int], old_out[j]));
                            lemma_bytes_lt_transitive(encode_utf8(s@), encode_utf8(old_out[pos as int]), encode_utf8(old_out[j]));
                        }
                    }
                }
                assert(pos < old_out.len() ==> text_lt(s@, old_out[pos as int])) by {
                    if pos < old_out.len() {
                        assert(!text_lt(old_out[pos as int], s@));
                        assert(old_out[pos as int] != s@);
                        lemma_text_lt_total(old_out[pos as int], s@);
                    }
                }
                assert forall|i: int, j: int| 0 <= i < j < nv.len() implies text_lt(#[trigger] nv[i], #[trigger] nv[j]) by {
                    if j < pos {
                    } else if j == pos {
                        assert(nv[i] == old_out[i]);
                        assert(text_lt(out@[i]@, s@));
                    } else if i < pos {
                        assert(nv[j] == old_out[j - 1]);
                        assert(text_lt(old_out[i], s@));
                        lemma_bytes_lt_transitive(encode_utf8(old_out[i]), encode_utf8(s@), encode_utf8(old_out[j - 1]));
                    } else if i == pos {
                        assert(nv[j] == old_out[j - 1]);
                    } else {
                        assert(nv[i] == old_out[i - 1]);
                        assert(nv[j] == old_out[j - 1]);
                    }
                }
                Seq::<Seq<char>>::lemma_to_set_insert_commutes(prev_items, s@);
                assert(prev_items.push(s@) =~= prev_items + seq![s@]);
                assert(nv.to_set() =~= old_out.to_set().insert(s@)) by {
                    assert forall|x: Seq<char>| nv.to_set().contains(x) <==> old_out.to_set().insert(s@).contains(x) by {
                        if nv.contains(x) {
                            let i = choose|i: int| 0 <= i < nv.len() && nv[i] == x;
                            if i < pos {
                                assert(old_out[i] == x);
                            } else if i > pos {
                                assert(old_out[i - 1] == x);
                            }
                        }
                        if old_out.contains(x) {
                            let i = choose|i: int| 0 <= i < old_out.len() && old_out[i] == x;
                            if i < pos {
                                assert(nv[i] == x);
                            } else {
                                assert(nv[i + 1] == x);
                            }
                        }
                        if x == s@ {
                            assert(nv[pos as int] == x);
                        }
                    }
                }
            }
        }
        k = k + 1;
    }
    proof {
        assert(items@.subrange(0, k as int) =~= items@);
    }
    out
}


/// `parts` joined with `sep` between them.
pub open spec fn join_with(parts: Seq<Seq<char>>, sep: Seq<char>) -> Seq<char>
    decreases parts.len(),
{
    if parts.len() == 0 {
        seq![]
    } else if parts.len() == 1 {
        parts[0]
    } else {
        join_with(parts.drop_last(), sep) + sep + parts.last()
    }
}

pub open spec fn str_views(v: Seq<&str>) -> Seq<Seq<char>> {
    v.map_values(|s: &str| s@)
}

/// Appends `parts` joined with `sep` between them to `out`.
pub fn append_joined(out: &mut String, parts: &Vec<&str>, sep: &str)
    ensures
        final(out)@ == old(out)@ + join_with(str_views(parts@), sep@),
{
    let ghost start = out@;
    let mut i: usize = 0;
    while i < parts.len()
        invariant
            i <= parts.len(),
            out@ == start + join_with(str_views(parts@.take(i as int)), sep@),
        decreases parts.len() - i,
    {
        if i > 0 {
            out.append(sep);
        }
        out.append(parts[i]);
        proof {
            let s = str_views(parts@.take(i + 1));
            assert(s =~= str_views(parts@.take(i as int)).push(parts@[i as int]@));
            assert(s.drop_last() =~= str_views(parts@.take(i as int)));
            assert(out@ =~= start + join_with(s, sep@));
        }
        i = i + 1;
    }
    proof {
        assert(parts@.take(i as int) =~= parts@);
    }
}

} // verus!
