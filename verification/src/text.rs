//! Verified text helpers: decimal formatting, zero padding, joining and
//! sorting, path and file-name handling, and the export file-name scheme.

use vstd::prelude::*;

verus! {

use vstd::multiset::Multiset;

/// Relies on String::push: appends exactly the one character.
#[verifier::external_body]
pub fn push_char(s: &mut String, c: char)
    ensures
        final(s)@ == old(s)@.push(c),
{
    s.push(c);
}

/// The character for one decimal digit.
pub open spec fn digit_char(d: int) -> char {
    if d == 0 {
        '0'
    } else if d == 1 {
        '1'
    } else if d == 2 {
        '2'
    } else if d == 3 {
        '3'
    } else if d == 4 {
        '4'
    } else if d == 5 {
        '5'
    } else if d == 6 {
        '6'
    } else if d == 7 {
        '7'
    } else if d == 8 {
        '8'
    } else {
        '9'
    }
}

/// Decimal digits of `n`, most significant first, no leading zeros
/// (a single `'0'` for zero).
pub open spec fn dec_digits(n: int) -> Seq<char>
    decreases n,
{
    if n < 10 {
        seq![digit_char(n)]
    } else {
        dec_digits(n / 10).push(digit_char(n % 10))
    }
}

fn digit_to_char(d: u32) -> (c: char)
    requires
        d < 10,
    ensures
        c == digit_char(d as int),
{
    match d {
        0 => '0',
        1 => '1',
        2 => '2',
        3 => '3',
        4 => '4',
        5 => '5',
        6 => '6',
        7 => '7',
        8 => '8',
        _ => '9',
    }
}

/// `n` written in decimal.
pub fn u32_to_dec(n: u32) -> (r: String)
    ensures
        r@ == dec_digits(n as int),
    decreases n,
{
    if n < 10 {
        let mut r = String::new();
        push_char(&mut r, digit_to_char(n));
        r
    } else {
        let mut r = u32_to_dec(n / 10);
        push_char(&mut r, digit_to_char(n % 10));
        r
    }
}

/// `s` left-padded with `'0'` up to `width` characters; `s` unchanged when
/// already that long.
pub open spec fn zero_pad(s: Seq<char>, width: int) -> Seq<char> {
    if s.len() >= width {
        s
    } else {
        Seq::new((width - s.len()) as nat, |i: int| '0') + s
    }
}

/// `n` in decimal, zero-padded to at least `width` characters.
pub fn u32_to_dec_padded(n: u32, width: usize) -> (r: String)
    ensures
        r@ == zero_pad(dec_digits(n as int), width as int),
{
    let digits = u32_to_dec(n);
    let len = digits.as_str().unicode_len();
    if len >= width {
        digits
    } else {
        let mut r = String::new();
        let mut i: usize = 0;
        while i < width - len
            invariant
                len < width,
                len == dec_digits(n as int).len(),
                i <= width - len,
                r@ =~= Seq::new(i as nat, |k: int| '0'),
            decreases width - len - i,
        {
            push_char(&mut r, '0');
            proof {
                assert(r@ =~= Seq::new(i as nat + 1, |k: int| '0'));
            }
            i = i + 1;
        }
        r.append(digits.as_str());
        proof {
            assert(r@ =~= zero_pad(dec_digits(n as int), width as int));
        }
        r
    }
}

/// `parts` joined by `sep`, in order, with nothing before the first part or
/// after the last.
pub open spec fn join_with(parts: Seq<Seq<char>>, sep: Seq<char>) -> Seq<char>
    decreases parts.len(),
{
    if parts.len() == 0 {
        Seq::empty()
    } else if parts.len() == 1 {
        parts[0]
    } else {
        join_with(parts.drop_last(), sep) + sep + parts.last()
    }
}

/// Joins strings with a separator.
pub fn join_strings(parts: &Vec<String>, sep: &str) -> (r: String)
    ensures
        r@ == join_with(parts.deep_view(), sep@),
{
    let mut r = String::new();
    let mut i: usize = 0;
    while i < parts.len()
        invariant
            i <= parts.len(),
            r@ =~= join_with(parts.deep_view().take(i as int), sep@),
        decreases parts.len() - i,
    {
        if i > 0 {
            r.append(sep);
        }
        r.append(parts[i].as_str());
        proof {
            let pre = parts.deep_view().take(i as int);
            let cur = parts.deep_view().take(i as int + 1);
            assert(cur.drop_last() =~= pre);
            assert(cur.last() == parts.deep_view()[i as int]);
            assert(r@ =~= join_with(cur, sep@));
        }
        i = i + 1;
    }
    proof {
        assert(parts.deep_view().take(parts.len() as int) =~= parts.deep_view());
    }
    r
}

/// The image file name for one exported frame:
/// `<stem>_frame_<index, 5-digit zero-padded>.png`.
pub open spec fn frame_filename(stem: Seq<char>, frame: u32) -> Seq<char> {
    stem + "_frame_"@ + zero_pad(dec_digits(frame as int), 5) + ".png"@
}

/// Builds the image file name for one exported frame.
pub fn make_frame_filename(stem: &String, frame: u32) -> (r: String)
    ensures
        r@ == frame_filename(stem@, frame),
{
    let mut r = stem.clone();
    r.append("_frame_");
    let padded = u32_to_dec_padded(frame, 5);
    r.append(padded.as_str());
    r.append(".png");
    r
}

/// Lexicographic order on character sequences, by code point, shorter
/// prefixes first.
pub open spec fn lex_le(a: Seq<char>, b: Seq<char>) -> bool
    decreases a.len(),
{
    if a.len() == 0 {
        true
    } else if b.len() == 0 {
        false
    } else if (a[0] as u32) < (b[0] as u32) {
        true
    } else if (a[0] as u32) > (b[0] as u32) {
        false
    } else {
        lex_le(a.drop_first(), b.drop_first())
    }
}

/// Any two sequences are ordered one way or the other.
pub proof fn lemma_lex_le_total(a: Seq<char>, b: Seq<char>)
    ensures
        lex_le(a, b) || lex_le(b, a),
    decreases a.len(),
{
    if a.len() > 0 && b.len() > 0 && (a[0] as u32) == (b[0] as u32) {
        lemma_lex_le_total(a.drop_first(), b.drop_first());
    }
}

/// The order is transitive.
pub proof fn lemma_lex_le_trans(a: Seq<char>, b: Seq<char>, c: Seq<char>)
    requires
        lex_le(a, b),
        lex_le(b, c),
    ensures
        lex_le(a, c),
    decreases a.len(),
{
    if a.len() > 0 && b.len() > 0 && c.len() > 0 && (a[0] as u32) == (b[0] as u32) && (b[0] as u32)
        == (c[0] as u32) {
        lemma_lex_le_trans(a.drop_first(), b.drop_first(), c.drop_first());
    }
}

/// Whether `a` sorts at or before `b`.
pub fn str_le(a: &String, b: &String) -> (r: bool)
    ensures
        r == lex_le(a@, b@),
{
    let an = a.as_str().unicode_len();
    let bn = b.as_str().unicode_len();
    let mut i: usize = 0;
    proof {
        assert(a@.skip(0) =~= a@);
        assert(b@.skip(0) =~= b@);
    }
    loop
        invariant
            an == a@.len(),
            bn == b@.len(),
            i <= an,
            i <= bn,
            lex_le(a@, b@) == lex_le(a@.skip(i as int), b@.skip(i as int)),
            lex_le(b@, a@) == lex_le(b@.skip(i as int), a@.skip(i as int)),
        decreases an - i,
    {
        if i >= an {
            proof {
                assert(a@.skip(i as int).len() == 0);
            }
            return true;
        }
        if i >= bn {
            proof {
                assert(b@.skip(i as int).len() == 0);
                assert(a@.skip(i as int).len() > 0);
            }
            return false;
        }
        let ca = a.as_str().get_char(i);
        let cb = b.as_str().get_char(i);
        proof {
            assert(a@.skip(i as int)[0] == a@[i as int]);
            assert(b@.skip(i as int)[0] == b@[i as int]);
        }
        if (ca as u32) < (cb as u32) {
            return true;
        }
        if (ca as u32) > (cb as u32) {
            return false;
        }
        proof {
            assert(a@.skip(i as int).drop_first() =~= a@.skip(i as int + 1));
            assert(b@.skip(i as int).drop_first() =~= b@.skip(i as int + 1));
        }
        i = i + 1;
    }
}

/// The sequence is ordered: every earlier element sorts at or before every
/// later one.
pub open spec fn sorted_lex(s: Seq<Seq<char>>) -> bool {
    forall|i: int, j: int| 0 <= i < j < s.len() ==> lex_le(s[i], s[j])
}

/// The position of a least element.
fn min_index(v: &Vec<String>) -> (k: usize)
    requires
        v@.len() > 0,
    ensures
        k < v@.len(),
        forall|j: int| 0 <= j < v@.len() ==> lex_le(v.deep_view()[k as int], v.deep_view()[j]),
{
    let mut k: usize = 0;
    let mut i: usize = 1;
    proof {
        lemma_lex_le_total(v.deep_view()[0], v.deep_view()[0]);
    }
    while i < v.len()
        invariant
            k < i <= v@.len(),
            forall|j: int| 0 <= j < i ==> lex_le(v.deep_view()[k as int], v.deep_view()[j]),
        decreases v@.len() - i,
    {
        proof {
            lemma_lex_le_total(v.deep_view()[k as int], v.deep_view()[i as int]);
        }
        if str_le(&v[i], &v[k]) {
            proof {
                assert forall|j: int| 0 <= j < i + 1 implies lex_le(
                    v.deep_view()[i as int],
                    v.deep_view()[j],
                ) by {
                    if j < i {
                        lemma_lex_le_trans(
                            v.deep_view()[i as int],
                            v.deep_view()[k as int],
                            v.deep_view()[j],
                        );
                    } else {
                        lemma_lex_le_total(v.deep_view()[i as int], v.deep_view()[i as int]);
                    }
                }
            }
            k = i;
        }
        i = i + 1;
    }
    k
}

/// Sorts strings into lexicographic order (by code point, shorter prefixes
/// first), keeping exactly the same strings with the same multiplicities.
pub fn sort_strings(v: Vec<String>) -> (r: Vec<String>)
    ensures
        sorted_lex(r.deep_view()),
        r.deep_view().to_multiset() == v.deep_view().to_multiset(),
{
    let mut rem = v;
    let mut out: Vec<String> = Vec::new();
    let ghost orig = rem.deep_view().to_multiset();
    proof {
        broadcast use vstd::multiset::group_multiset_axioms;

        out.deep_view().to_multiset_ensures();
        assert(out.deep_view() =~= Seq::<Seq<char>>::empty());
        assert(out.deep_view().to_multiset() =~= Multiset::<Seq<char>>::empty());
        assert(out.deep_view().to_multiset().add(rem.deep_view().to_multiset()) =~= orig);
    }
    while rem.len() > 0
        invariant
            out.deep_view().to_multiset().add(rem.deep_view().to_multiset()) == orig,
            sorted_lex(out.deep_view()),
            forall|i: int, j: int|
                0 <= i < out.deep_view().len() && 0 <= j < rem.deep_view().len() ==> lex_le(
                    out.deep_view()[i],
                    rem.deep_view()[j],
                ),
        decreases rem@.len(),
    {
        let k = min_index(&rem);
        let ghost rem_pre = rem.deep_view();
        let ghost out_pre = out.deep_view();
        let picked = rem.remove(k);
        proof {
            broadcast use vstd::multiset::group_multiset_axioms;

            rem_pre.to_multiset_ensures();
            out_pre.to_multiset_ensures();
            assert(rem_pre.contains(rem_pre[k as int]));
            assert(rem.deep_view() =~= rem_pre.remove(k as int));
            assert(rem_pre.remove(k as int).to_multiset() =~= rem_pre.to_multiset().remove(
                rem_pre[k as int],
            ));
        }
        out.push(picked);
        proof {
            assert(out.deep_view() =~= out_pre.push(rem_pre[k as int]));
            broadcast use vstd::multiset::group_multiset_axioms;

            out_pre.to_multiset_ensures();
            rem_pre.to_multiset_ensures();
            assert(out_pre.push(rem_pre[k as int]).to_multiset() =~= out_pre.to_multiset().insert(
                rem_pre[k as int],
            ));
            assert(rem_pre.contains(rem_pre[k as int]));
            assert(rem_pre.to_multiset().count(rem_pre[k as int]) > 0);
            assert(out.deep_view().to_multiset().add(rem.deep_view().to_multiset()) =~= orig);
            assert forall|i: int, j: int|
                0 <= i < out.deep_view().len() && 0 <= j < rem.deep_view().len() implies lex_le(
                out.deep_view()[i],
                rem.deep_view()[j],
            ) by {
                let moved = if j < k { j } else { j + 1 };
                assert(rem.deep_view()[j] == rem_pre[moved]);
                if i < out.deep_view().len() - 1 {
                    assert(lex_le(out_pre[i], rem_pre[moved]));
                } else {
                    assert(lex_le(rem_pre[k as int], rem_pre[moved]));
                }
            }
            assert forall|i: int, j: int|
                0 <= i < j < out.deep_view().len() implies lex_le(
                out.deep_view()[i],
                out.deep_view()[j],
            ) by {
                if j < out.deep_view().len() - 1 {
                    assert(lex_le(out_pre[i], out_pre[j]));
                } else {
                    assert(lex_le(out_pre[i], rem_pre[k as int]));
                }
            }
        }
    }
    proof {
        broadcast use vstd::multiset::group_multiset_axioms;

        rem.deep_view().to_multiset_ensures();
        assert(rem.deep_view() =~= Seq::<Seq<char>>::empty());
        assert(rem.deep_view().to_multiset() =~= Multiset::<Seq<char>>::empty());
        assert(out.deep_view().to_multiset().add(rem.deep_view().to_multiset())
            =~= out.deep_view().to_multiset());
    }
    out
}

/// `p` is a prefix of `s`.
pub open spec fn is_prefix(p: Seq<char>, s: Seq<char>) -> bool {
    p.len() <= s.len() && s.subrange(0, p.len() as int) == p
}

/// Whether `s` starts with `p`.
pub fn starts_with(s: &String, p: &String) -> (r: bool)
    ensures
        r == is_prefix(p@, s@),
{
    let sl = s.as_str().unicode_len();
    let pl = p.as_str().unicode_len();
    if pl > sl {
        return false;
    }
    let mut i: usize = 0;
    while i < pl
        invariant
            pl == p@.len(),
            pl <= sl == s@.len(),
            i <= pl,
            forall|k: int| 0 <= k < i ==> s@[k] == p@[k],
        decreases pl - i,
    {
        if s.as_str().get_char(i) != p.as_str().get_char(i) {
            proof {
                assert(s@.subrange(0, p@.len() as int)[i as int] == s@[i as int]);
            }
            return false;
        }
        i = i + 1;
    }
    proof {
        assert(s@.subrange(0, p@.len() as int) =~= p@);
    }
    true
}

/// `i` is the position of the last occurrence of `c` in `s`.
pub open spec fn is_last_occurrence(s: Seq<char>, c: char, i: int) -> bool {
    &&& 0 <= i < s.len()
    &&& s[i] == c
    &&& forall|j: int| i < j < s.len() ==> s[j] != c
}

/// The position of the last occurrence of `c` in `s`, or `-1` when `c` does
/// not occur.
pub open spec fn last_index_of(s: Seq<char>, c: char) -> int {
    if exists|i: int| is_last_occurrence(s, c, i) {
        choose|i: int| is_last_occurrence(s, c, i)
    } else {
        -1
    }
}

/// A position of a last occurrence determines `last_index_of`.
pub proof fn lemma_last_index_of(s: Seq<char>, c: char, i: int)
    requires
        is_last_occurrence(s, c, i),
    ensures
        last_index_of(s, c) == i,
{
    let w = choose|w: int| is_last_occurrence(s, c, w);
    if w < i {
        assert(s[i] != c);
    } else if i < w {
        assert(s[w] != c);
    }
}

/// When `c` does not occur in `s`, `last_index_of` is `-1`.
pub proof fn lemma_last_index_of_none(s: Seq<char>, c: char)
    requires
        forall|j: int| 0 <= j < s.len() ==> s[j] != c,
    ensures
        last_index_of(s, c) == -1,
{
    assert forall|i: int| !is_last_occurrence(s, c, i) by {
        if 0 <= i < s.len() {
            assert(s[i] != c);
        }
    }
}

/// The characters of `s`, one by one.
pub fn chars_vec(s: &str) -> (r: Vec<char>)
    ensures
        r@ == s@,
{
    let n = s.unicode_len();
    let mut r: Vec<char> = Vec::new();
    let mut i: usize = 0;
    while i < n
        invariant
            n == s@.len(),
            i <= n,
            r@ =~= s@.take(i as int),
        decreases n - i,
    {
        r.push(s.get_char(i));
        proof {
            assert(r@ =~= s@.take(i as int + 1));
        }
        i = i + 1;
    }
    proof {
        assert(s@.take(n as int) =~= s@);
    }
    r
}

/// The position of the last occurrence of `c`, if `c` occurs at all.
pub fn find_last(chars: &Vec<char>, c: char) -> (r: Option<usize>)
    ensures
        match r {
            Some(i) => is_last_occurrence(chars@, c, i as int) && last_index_of(chars@, c)
                == i as int,
            None => last_index_of(chars@, c) == -1,
        },
{
    let mut best: Option<usize> = None;
    let mut i: usize = 0;
    while i < chars.len()
        invariant
            i <= chars.len(),
            match best {
                Some(k) => k < i && chars@[k as int] == c && forall|j: int|
                    k < j < i ==> chars@[j] != c,
                None => forall|j: int| 0 <= j < i ==> chars@[j] != c,
            },
        decreases chars.len() - i,
    {
        if chars[i] == c {
            best = Some(i);
        }
        i = i + 1;
    }
    proof {
        match best {
            Some(k) => {
                lemma_last_index_of(chars@, c, k as int);
            },
            None => {
                lemma_last_index_of_none(chars@, c);
            },
        }
    }
    best
}

/// The part of a `'/'`-separated path after its last separator (the whole
/// path when there is none).
pub open spec fn spec_file_name(p: Seq<char>) -> Seq<char> {
    p.skip(last_index_of(p, '/') + 1)
}

/// The file name without its extension: everything before the last `'.'`,
/// unless the only `'.'` leads the name (a hidden file keeps its full name).
pub open spec fn spec_file_stem(p: Seq<char>) -> Seq<char> {
    let n = spec_file_name(p);
    let d = last_index_of(n, '.');
    if d > 0 {
        n.take(d)
    } else {
        n
    }
}

/// A three-letter video extension, compared without regard to ASCII case.
pub open spec fn is_video_ext(e: Seq<char>) -> bool {
    e.len() == 3 && {
        ||| ((e[0] == 'm' || e[0] == 'M') && (e[1] == 'p' || e[1] == 'P') && e[2] == '4')
        ||| ((e[0] == 'a' || e[0] == 'A') && (e[1] == 'v' || e[1] == 'V') && (e[2] == 'i' || e[2]
            == 'I'))
        ||| ((e[0] == 'm' || e[0] == 'M') && (e[1] == 'o' || e[1] == 'O') && (e[2] == 'v' || e[2]
            == 'V'))
    }
}

/// The file name carries an `mp4`, `avi` or `mov` extension, in any ASCII
/// case.
pub open spec fn spec_is_video_file(p: Seq<char>) -> bool {
    let n = spec_file_name(p);
    let d = last_index_of(n, '.');
    d > 0 && is_video_ext(n.skip(d + 1))
}

/// A string holding the given characters.
fn string_from_chars(chars: &Vec<char>, from: usize, to: usize) -> (r: String)
    requires
        from <= to <= chars@.len(),
    ensures
        r@ == chars@.subrange(from as int, to as int),
{
    let mut r = String::new();
    let mut i: usize = from;
    while i < to
        invariant
            from <= i <= to <= chars@.len(),
            r@ =~= chars@.subrange(from as int, i as int),
        decreases to - i,
    {
        push_char(&mut r, chars[i]);
        proof {
            assert(r@ =~= chars@.subrange(from as int, i as int + 1));
        }
        i = i + 1;
    }
    r
}

/// The file name of `path` without its extension.
pub fn file_stem_of(path: &String) -> (r: String)
    ensures
        r@ == spec_file_stem(path@),
{
    let cs = chars_vec(path.as_str());
    let cs_len = cs.len();
    let start: usize = match find_last(&cs, '/') {
        Some(i) => i + 1,
        None => 0,
    };
    let mut name: Vec<char> = Vec::new();
    let mut k: usize = start;
    while k < cs.len()
        invariant
            start <= k <= cs@.len(),
            name@ =~= cs@.subrange(start as int, k as int),
        decreases cs.len() - k,
    {
        name.push(cs[k]);
        proof {
            assert(name@ =~= cs@.subrange(start as int, k as int + 1));
        }
        k = k + 1;
    }
    proof {
        assert(name@ =~= path@.skip(start as int));
        assert(name@ == spec_file_name(path@));
    }
    match find_last(&name, '.') {
        Some(d) if d > 0 => {
            let r = string_from_chars(&name, 0, d);
            proof {
                assert(name@.subrange(0, d as int) =~= name@.take(d as int));
            }
            r
        },
        _ => {
            let r = string_from_chars(&name, 0, name.len());
            proof {
                assert(name@.subrange(0, name@.len() as int) =~= name@);
            }
            r
        },
    }
}

/// Whether `path` names a video file: its name carries an `mp4`, `avi` or
/// `mov` extension in any ASCII case.
pub fn is_video_file(path: &String) -> (r: bool)
    ensures
        r == spec_is_video_file(path@),
{
    let cs = chars_vec(path.as_str());
    let cs_len = cs.len();
    let start: usize = match find_last(&cs, '/') {
        Some(i) => i + 1,
        None => 0,
    };
    let mut name: Vec<char> = Vec::new();
    let mut k: usize = start;
    while k < cs.len()
        invariant
            start <= k <= cs@.len(),
            name@ =~= cs@.subrange(start as int, k as int),
        decreases cs.len() - k,
    {
        name.push(cs[k]);
        proof {
            assert(name@ =~= cs@.subrange(start as int, k as int + 1));
        }
        k = k + 1;
    }
    proof {
        assert(name@ =~= path@.skip(start as int));
        assert(name@ == spec_file_name(path@));
    }
    match find_last(&name, '.') {
        Some(d) if d > 0 => {
            proof {
                assert(name@.skip(d as int + 1).len() == name@.len() - d - 1);
            }
            if name.len() - d - 1 != 3 {
                return false;
            }
            let e0 = name[d + 1];
            let e1 = name[d + 2];
            let e2 = name[d + 3];
            proof {
                let e = name@.skip(d as int + 1);
                assert(e[0] == name@[d as int + 1]);
                assert(e[1] == name@[d as int + 2]);
                assert(e[2] == name@[d as int + 3]);
            }
            ((e0 == 'm' || e0 == 'M') && (e1 == 'p' || e1 == 'P') && e2 == '4') || ((e0 == 'a'
                || e0 == 'A') && (e1 == 'v' || e1 == 'V') && (e2 == 'i' || e2 == 'I')) || ((e0
                == 'm' || e0 == 'M') && (e1 == 'o' || e1 == 'O') && (e2 == 'v' || e2 == 'V'))
        },
        _ => false,
    }
}

/// One path below another, separated by `'/'`; an empty base names the
/// relative path itself.
pub open spec fn spec_path_join(base: Seq<char>, rel: Seq<char>) -> Seq<char> {
    if base.len() == 0 {
        rel
    } else {
        base + "/"@ + rel
    }
}

/// Joins two path components with `'/'`.
pub fn path_join(base: &String, rel: &str) -> (r: String)
    ensures
        r@ == spec_path_join(base@, rel@),
{
    if base.as_str().unicode_len() == 0 {
        let mut r = String::new();
        r.append(rel);
        r
    } else {
        let mut r = base.clone();
        r.append("/");
        r.append(rel);
        r
    }
}

} // verus!
