//! Text rules shared by the configuration checks: blank names, decimal
//! numbers and the shape of file system paths (Unix separators).
use vstd::prelude::*;
use vstd::std_specs::iter::IteratorSpec;

verus! {

/// The characters of Unicode's `White_Space` property.
pub open spec fn is_white(c: char) -> bool {
    let n = c as u32;
    ||| 0x09 <= n <= 0x0d
    ||| n == 0x20
    ||| n == 0x85
    ||| n == 0xa0
    ||| n == 0x1680
    ||| 0x2000 <= n <= 0x200a
    ||| n == 0x2028
    ||| n == 0x2029
    ||| n == 0x202f
    ||| n == 0x205f
    ||| n == 0x3000
}

/// A text is blank when it holds nothing but white space, so that trimming
/// it leaves it empty.
pub open spec fn is_blank(s: Seq<char>) -> bool {
    forall|i: int| 0 <= i < s.len() ==> is_white(#[trigger] s[i])
}

/// Whether the character has the `White_Space` property, as
/// `char::is_whitespace` and `str::trim` take it.
pub fn char_is_whitespace(c: char) -> (r: bool)
    ensures
        r == is_white(c),
{
    let n = c as u32;
    (0x09 <= n && n <= 0x0d) || n == 0x20 || n == 0x85 || n == 0xa0 || n == 0x1680 || (0x2000 <= n && n
        <= 0x200a) || n == 0x2028 || n == 0x2029 || n == 0x202f || n == 0x205f || n == 0x3000
}

/// Whether `s.trim()` is empty.
pub fn is_blank_str(s: &str) -> (r: bool)
    ensures
        r == is_blank(s@),
{
    broadcast use vstd::string::group_string_axioms;

    let n = s.unicode_len();
    let mut k: usize = 0;
    let mut it = s.chars();
    loop
        invariant
            n == s@.len(),
            k <= s@.len(),
            forall|j: int| 0 <= j < k ==> is_white(#[trigger] s@[j]),
            it.remaining() == s@.skip(k as int),
        decreases s@.len() - k,
    {
        match it.next() {
            None => {
                assert(s@.skip(k as int).len() == 0);
                return true;
            },
            Some(c) => {
                assert(s@.skip(k as int).len() > 0);
                assert(s@.skip(k as int)[0] == s@[k as int]);
                if !char_is_whitespace(c) {
                    return false;
                }
                k = k + 1;
                assert(s@.skip(k as int) =~= s@.skip(k - 1).drop_first());
            },
        }
    }
}

/// The character of a decimal digit.
pub open spec fn digit_char(d: nat) -> char {
    if d == 0 { '0' }
    else if d == 1 { '1' }
    else if d == 2 { '2' }
    else if d == 3 { '3' }
    else if d == 4 { '4' }
    else if d == 5 { '5' }
    else if d == 6 { '6' }
    else if d == 7 { '7' }
    else if d == 8 { '8' }
    else { '9' }
}

/// The decimal notation of a natural number, without leading zeros.
pub open spec fn decimal(n: nat) -> Seq<char>
    decreases n,
{
    if n < 10 {
        seq![digit_char(n)]
    } else {
        decimal(n / 10) + seq![digit_char(n % 10)]
    }
}

/// The decimal notation of an integer, with a minus sign when it is negative.
pub open spec fn signed_decimal(n: int) -> Seq<char> {
    if n < 0 {
        seq!['-'] + decimal((-n) as nat)
    } else {
        decimal(n as nat)
    }
}

fn digit_str(d: u8) -> (r: &'static str)
    requires
        d < 10,
    ensures
        r@ == seq![digit_char(d as nat)],
{
    proof {
        reveal_strlit("0");
        reveal_strlit("1");
        reveal_strlit("2");
        reveal_strlit("3");
        reveal_strlit("4");
        reveal_strlit("5");
        reveal_strlit("6");
        reveal_strlit("7");
        reveal_strlit("8");
        reveal_strlit("9");
    }
    if d == 0 { "0" }
    else if d == 1 { "1" }
    else if d == 2 { "2" }
    else if d == 3 { "3" }
    else if d == 4 { "4" }
    else if d == 5 { "5" }
    else if d == 6 { "6" }
    else if d == 7 { "7" }
    else if d == 8 { "8" }
    else { "9" }
}

/// Appends the decimal notation of `n` to `s`.
pub fn push_decimal(s: &mut String, n: u128)
    ensures
        final(s)@ == old(s)@ + decimal(n as nat),
    decreases n,
{
    if n >= 10 {
        push_decimal(s, n / 10);
        let d = (n % 10) as u8;
        s.append(digit_str(d));
        assert(final(s)@ =~= old(s)@ + decimal(n as nat));
    } else {
        let d = n as u8;
        s.append(digit_str(d));
    }
}

/// Appends the decimal notation of `n`, with its sign, to `s`.
pub fn push_signed_decimal(s: &mut String, n: i32)
    ensures
        final(s)@ == old(s)@ + signed_decimal(n as int),
{
    if n < 0 {
        proof { reveal_strlit("-"); }
        s.append("-");
        let magnitude: u128 = (0i64 - n as i64) as u128;
        push_decimal(s, magnitude);
        assert(final(s)@ =~= old(s)@ + signed_decimal(n as int));
    } else {
        push_decimal(s, n as u128);
    }
}

/// A path is absolute when it starts at the root, `/`.
pub open spec fn is_absolute_path(s: Seq<char>) -> bool {
    s.len() > 0 && s[0] == '/'
}

/// The path has a `..` component at position `i`: two dots between
/// separators or the ends of the path.
pub open spec fn parent_component_at(s: Seq<char>, i: int) -> bool {
    &&& 0 <= i
    &&& i + 2 <= s.len()
    &&& s[i] == '.'
    &&& s[i + 1] == '.'
    &&& (i == 0 || s[i - 1] == '/')
    &&& (i + 2 == s.len() || s[i + 2] == '/')
}

/// A working directory is safe when it stays below the folder it is taken
/// relative to: it is not absolute and no component of it is `..`.
pub open spec fn is_safe_relative_path(s: Seq<char>) -> bool {
    &&& !is_absolute_path(s)
    &&& forall|i: int| !parent_component_at(s, i)
}

/// The path of `v` below the folder `base`.
pub open spec fn joined_path(base: Seq<char>, v: Seq<char>) -> Seq<char> {
    base + "/"@ + v
}

/// A safe working directory never climbs out of the folder it is joined
/// to: the joined path starts with the folder, and no `..` component lies
/// in the part that the working directory adds.
pub proof fn lemma_joined_stays_below(base: Seq<char>, v: Seq<char>)
    requires
        is_safe_relative_path(v),
    ensures
        joined_path(base, v).take(base.len() as int) == base,
        forall|i: int| i >= base.len() ==> !#[trigger] parent_component_at(joined_path(base, v), i),
{
    reveal_strlit("/");
    let p = joined_path(base, v);
    let b = base.len() as int;
    assert(p.take(b) =~= base);
    assert forall|i: int| i >= base.len() implies !#[trigger] parent_component_at(p, i) by {
        if parent_component_at(p, i) {
            assert(p[b] == '/');
            assert(i > b);
            let j = i - b - 1;
            assert(p[i] == v[j]);
            assert(p[i + 1] == v[j + 1]);
            if j > 0 {
                assert(p[i - 1] == v[j - 1]);
            }
            if i + 2 < p.len() {
                assert(p[i + 2] == v[j + 2]);
            }
            assert(parent_component_at(v, j));
        }
    }
}

/// Whether the path is absolute.
pub fn is_absolute(s: &str) -> (r: bool)
    ensures
        r == is_absolute_path(s@),
{
    let n = s.unicode_len();
    n > 0 && s.get_char(0) == '/'
}

/// The characters of `s`, in order.
pub fn chars_of(s: &str) -> (r: Vec<char>)
    ensures
        r@ == s@,
{
    broadcast use vstd::string::group_string_axioms;

    let mut r: Vec<char> = Vec::new();
    let mut it = s.chars();
    loop
        invariant
            r@.len() <= s@.len(),
            r@ == s@.take(r@.len() as int),
            it.remaining() == s@.skip(r@.len() as int),
        decreases s@.len() - r@.len(),
    {
        let ghost k = r@.len() as int;
        match it.next() {
            None => {
                assert(s@.skip(k).len() == 0);
                assert(r@ =~= s@);
                return r;
            },
            Some(c) => {
                assert(s@.skip(k).len() > 0);
                assert(s@.skip(k)[0] == s@[k]);
                r.push(c);
                assert(r@ =~= s@.take(k + 1));
                assert(s@.skip(k + 1) =~= s@.skip(k).drop_first());
            },
        }
    }
}

/// Whether the path is relative and never climbs above its base folder.
pub fn safe_relative_path(s: &str) -> (r: bool)
    ensures
        r == is_safe_relative_path(s@),
{
    if is_absolute(s) {
        return false;
    }
    let cs = chars_of(s);
    let n = cs.len();
    let mut i: usize = 0;
    while i < n
        invariant
            n == s@.len(),
            cs@ == s@,
            i <= n,
            forall|j: int| 0 <= j < i ==> !parent_component_at(s@, j),
        decreases n - i,
    {
        if i + 1 < n && cs[i] == '.' && cs[i + 1] == '.' && (i == 0 || cs[i - 1] == '/') && (i + 2 == n
            || cs[i + 2] == '/') {
            assert(parent_component_at(s@, i as int));
            return false;
        }
        i = i + 1;
    }
    assert forall|j: int| !parent_component_at(s@, j) by {
        if j >= i as int {
            assert(j + 2 > n);
        }
    }
    true
}

} // verus!

verus! {

/// Whether `list` holds `s`.
pub fn contains_text(list: &Vec<String>, s: &String) -> (r: bool)
    ensures
        r == list.deep_view().contains(s@),
{
    let n = list.len();
    let mut i: usize = 0;
    while i < n
        invariant
            n == list@.len(),
            i <= n,
            forall|j: int| 0 <= j < i ==> list.deep_view()[j] != s@,
        decreases n - i,
    {
        if list[i] == *s {
            assert(list.deep_view()[i as int] == s@);
            return true;
        }
        i = i + 1;
    }
    false
}

} // verus!

verus! {

/// The number of bytes in the UTF-8 encoding of a character.
pub open spec fn char_size(c: char) -> nat {
    let n = c as u32;
    if n <= 0x7f {
        1
    } else if n <= 0x7ff {
        2
    } else if n <= 0xffff {
        3
    } else {
        4
    }
}

/// The number of bytes in the UTF-8 encoding of a text.
pub open spec fn text_size(s: Seq<char>) -> nat
    decreases s.len(),
{
    if s.len() == 0 {
        0
    } else {
        text_size(s.drop_last()) + char_size(s.last())
    }
}

/// The UTF-8 encoding that std measures with `len` has `text_size` bytes.
pub proof fn lemma_encoded_size(s: Seq<char>)
    ensures
        vstd::utf8::encode_utf8(s).len() == text_size(s),
    decreases s.len(),
{
    if s.len() > 0 {
        lemma_encoded_size(s.drop_first());
        lemma_text_size_first(s);
        let n = s[0] as u32;
        vstd::utf8::char_is_scalar(s[0]);
        let e = vstd::utf8::encode_scalar(n);
        if n <= 0x7f {
            assert(e.len() == 1);
        } else if n <= 0x7ff {
            assert(e.len() == 2);
        } else if n <= 0xffff {
            assert(!(0xD800 <= n <= 0xDFFF));
            assert(e.len() == 3);
        } else {
            assert(e.len() == 4);
        }
        assert(vstd::utf8::encode_utf8(s) == e + vstd::utf8::encode_utf8(s.drop_first()));
    }
}

/// Sizes add up from the front as well as from the back.
pub proof fn lemma_text_size_first(s: Seq<char>)
    requires
        s.len() > 0,
    ensures
        text_size(s) == char_size(s[0]) + text_size(s.drop_first()),
    decreases s.len(),
{
    if s.len() > 1 {
        lemma_text_size_first(s.drop_last());
        assert(s.drop_last().drop_first() =~= s.drop_first().drop_last());
        assert(s.drop_first().last() == s.last());
        assert(s.drop_last()[0] == s[0]);
        assert(text_size(s.drop_first()) == text_size(s.drop_first().drop_last()) + char_size(
            s.drop_first().last(),
        ));
        assert(text_size(s) == text_size(s.drop_last()) + char_size(s.last()));
        assert(text_size(s.drop_last()) == char_size(s[0]) + text_size(s.drop_last().drop_first()));
    } else {
        assert(s.drop_first().len() == 0);
        assert(s.drop_last().len() == 0);
        assert(s.last() == s[0]);
        assert(text_size(s.drop_last()) == 0);
        assert(text_size(s.drop_first()) == 0);
        assert(text_size(s) == text_size(s.drop_last()) + char_size(s.last()));
    }
}

/// The size of a concatenation is the sum of the sizes.
pub proof fn lemma_text_size_concat(a: Seq<char>, b: Seq<char>)
    ensures
        text_size(a + b) == text_size(a) + text_size(b),
    decreases b.len(),
{
    if b.len() == 0 {
        assert(a + b =~= a);
    } else {
        lemma_text_size_concat(a, b.drop_last());
        assert((a + b).drop_last() =~= a + b.drop_last());
    }
}

/// A longer prefix is no smaller.
pub proof fn lemma_text_size_prefix(s: Seq<char>, i: int, j: int)
    requires
        0 <= i <= j <= s.len(),
    ensures
        text_size(s.take(i)) <= text_size(s.take(j)),
    decreases j - i,
{
    if i < j {
        lemma_text_size_prefix(s, i, j - 1);
        assert(s.take(j).drop_last() =~= s.take(j - 1));
    }
}

/// The size in bytes of a character.
pub fn char_size_of(c: char) -> (r: usize)
    ensures
        r == char_size(c),
{
    let n = c as u32;
    if n <= 0x7f {
        1
    } else if n <= 0x7ff {
        2
    } else if n <= 0xffff {
        3
    } else {
        4
    }
}

/// The number of leading characters of `s` whose encoding fits in `limit`
/// bytes: as many as fit, and no more.
pub fn fitting_prefix(s: &str, limit: usize) -> (k: usize)
    ensures
        k <= s@.len(),
        text_size(s@.take(k as int)) <= limit,
        k < s@.len() ==> text_size(s@.take(k + 1)) > limit,
{
    broadcast use vstd::string::group_string_axioms;

    let mut used: usize = 0;
    let mut k: usize = 0;
    let mut it = s.chars();
    loop
        invariant
            k <= s@.len(),
            used == text_size(s@.take(k as int)),
            used <= limit,
            k <= used,
            it.remaining() == s@.skip(k as int),
        decreases s@.len() - k,
    {
        match it.next() {
            None => {
                assert(s@.skip(k as int).len() == 0);
                return k;
            },
            Some(c) => {
                assert(s@.skip(k as int).len() > 0);
                assert(k < s@.len());
                assert(s@.skip(k as int)[0] == s@[k as int]);
                assert(s@.take(k + 1).drop_last() =~= s@.take(k as int));
                let w = char_size_of(c);
                if w > limit - used {
                    return k;
                }
                used = used + w;
                k = k + 1;
                assert(s@.skip(k as int) =~= s@.skip(k - 1).drop_first());
            },
        }
    }
}

} // verus!

verus! {

/// A character takes at most four bytes.
pub proof fn lemma_text_size_bound(s: Seq<char>)
    ensures
        text_size(s) <= 4 * s.len(),
    decreases s.len(),
{
    if s.len() > 0 {
        lemma_text_size_bound(s.drop_last());
    }
}

} // verus!

verus! {

/// The position of the first line feed in `s`, which holds one.
pub open spec fn first_newline(s: Seq<char>) -> int {
    choose|i: int| 0 <= i < s.len() && s[i] == '\n' && forall|j: int| 0 <= j < i ==> #[trigger] s[j] != '\n'
}

/// A line ended by a line feed loses a carriage return before it.
pub open spec fn strip_cr(line: Seq<char>) -> Seq<char> {
    if line.len() > 0 && line.last() == '\r' {
        line.drop_last()
    } else {
        line
    }
}

/// The lines of a text that are not empty, as `str::lines` splits them:
/// at each line feed, dropping a carriage return just before it.
#[verifier::opaque]
pub open spec fn nonempty_lines(s: Seq<char>) -> Seq<Seq<char>>
    decreases s.len(),
{
    if s.contains('\n') {
        let i = first_newline(s);
        if 0 <= i < s.len() {
            let line = strip_cr(s.take(i));
            let rest = nonempty_lines(s.skip(i + 1));
            if line.len() > 0 {
                seq![line] + rest
            } else {
                rest
            }
        } else {
            seq![]
        }
    } else if s.len() > 0 {
        seq![s]
    } else {
        seq![]
    }
}

proof fn lemma_first_newline(s: Seq<char>, i: int)
    requires
        0 <= i < s.len(),
        s[i] == '\n',
        forall|j: int| 0 <= j < i ==> s[j] != '\n',
    ensures
        first_newline(s) == i,
{
    let f = first_newline(s);
    assert(0 <= f < s.len() && s[f] == '\n' && forall|j: int| 0 <= j < f ==> #[trigger] s[j] != '\n');
}

proof fn lemma_lines_step(s: Seq<char>, start: int, i: int, end: int)
    requires
        0 <= start <= i < s.len(),
        s[i] == '\n',
        forall|j: int| start <= j < i ==> s[j] != '\n',
        end == (if i > start && s[i - 1] == '\r' { i - 1 } else { i }),
    ensures
        nonempty_lines(s.skip(start)) == (if end > start {
            seq![s.subrange(start, end)]
        } else {
            Seq::<Seq<char>>::empty()
        }) + nonempty_lines(s.skip(i + 1)),
{
    reveal(nonempty_lines);
    let rest = s.skip(start);
    let k = i - start;
    assert(rest[k] == '\n');
    assert forall|j: int| 0 <= j < k implies rest[j] != '\n' by {
        assert(rest[j] == s[start + j]);
    }
    lemma_first_newline(rest, k);
    assert(rest.contains('\n'));
    assert(rest.skip(k + 1) =~= s.skip(i + 1));
    assert(strip_cr(rest.take(k)) =~= s.subrange(start, end));
    if end > start {
        assert(nonempty_lines(rest) == seq![s.subrange(start, end)] + nonempty_lines(s.skip(i + 1)));
    } else {
        assert(Seq::<Seq<char>>::empty() + nonempty_lines(s.skip(i + 1)) =~= nonempty_lines(s.skip(i + 1)));
    }
}

proof fn lemma_lines_end(s: Seq<char>, start: int)
    requires
        0 <= start <= s.len(),
        forall|j: int| start <= j < s.len() ==> s[j] != '\n',
    ensures
        nonempty_lines(s.skip(start)) == (if s.len() > start {
            seq![s.subrange(start, s.len() as int)]
        } else {
            Seq::<Seq<char>>::empty()
        }),
{
    reveal(nonempty_lines);
    let rest = s.skip(start);
    if rest.contains('\n') {
        let j = choose|j: int| 0 <= j < rest.len() && rest[j] == '\n';
        assert(s[start + j] == '\n');
    }
    assert(rest =~= s.subrange(start, s.len() as int));
}

/// The lines of a text that are not empty.
pub fn lines_of(s: &str) -> (r: Vec<String>)
    ensures
        r.deep_view() == nonempty_lines(s@),
{
    broadcast use vstd::string::group_string_axioms;

    let n = s.unicode_len();
    let mut r: Vec<String> = Vec::new();
    let mut start: usize = 0;
    let mut i: usize = 0;
    let mut previous_cr = false;
    let mut it = s.chars();
    assert(s@.skip(0) =~= s@);
    assert(r.deep_view() + nonempty_lines(s@.skip(0)) =~= nonempty_lines(s@));
    loop
        invariant
            n == s@.len(),
            start <= i <= s@.len(),
            it.remaining() == s@.skip(i as int),
            forall|j: int| start <= j < i ==> s@[j] != '\n',
            previous_cr == (i > start && s@[i - 1] == '\r'),
            r.deep_view() + nonempty_lines(s@.skip(start as int)) == nonempty_lines(s@),
        decreases s@.len() - i,
    {
        let ghost before = r.deep_view();
        match it.next() {
            None => {
                assert(s@.skip(i as int).len() == 0);
                proof {
                    lemma_lines_end(s@, start as int);
                }
                if i > start {
                    let line = String::from_str(s.substring_char(start, i));
                    r.push(line);
                    assert(r.deep_view() =~= before + seq![s@.subrange(start as int, i as int)]);
                } else {
                    assert(before + Seq::<Seq<char>>::empty() =~= before);
                }
                return r;
            },
            Some(c) => {
                assert(s@.skip(i as int).len() > 0);
                assert(s@.skip(i as int)[0] == s@[i as int]);
                if c == '\n' {
                    let end = if previous_cr { i - 1 } else { i };
                    proof {
                        lemma_lines_step(s@, start as int, i as int, end as int);
                    }
                    if end > start {
                        let line = String::from_str(s.substring_char(start, end));
                        r.push(line);
                        assert(r.deep_view() =~= before + seq![s@.subrange(start as int, end as int)]);
                        assert(r.deep_view() + nonempty_lines(s@.skip(i + 1)) =~= before + (seq![s@.subrange(start as int, end as int)] + nonempty_lines(s@.skip(i + 1))));
                    } else {
                        assert(Seq::<Seq<char>>::empty() + nonempty_lines(s@.skip(i + 1)) =~= nonempty_lines(s@.skip(i + 1)));
                    }
                    start = i + 1;
                    previous_cr = false;
                } else {
                    previous_cr = c == '\r';
                }
                i = i + 1;
                assert(s@.skip(i as int) =~= s@.skip(i - 1).drop_first());
            },
        }
    }
}

/// A text has no more non-empty lines than characters.
pub proof fn lemma_lines_count(s: Seq<char>)
    ensures
        nonempty_lines(s).len() <= s.len(),
    decreases s.len(),
{
    reveal(nonempty_lines);
    if s.contains('\n') {
        let i = first_newline(s);
        if 0 <= i < s.len() {
            lemma_lines_count(s.skip(i + 1));
        }
    }
}

} // verus!

verus! {

/// `a` sorts before `b`, or equals it, comparing characters in turn by code
/// point; a prefix sorts first. This is how `String` orders.
pub open spec fn text_le(a: Seq<char>, b: Seq<char>) -> bool
    decreases a.len(),
{
    if a.len() == 0 {
        true
    } else if b.len() == 0 {
        false
    } else if a[0] != b[0] {
        (a[0] as u32) < (b[0] as u32)
    } else {
        text_le(a.drop_first(), b.drop_first())
    }
}

/// Of two texts, one sorts before the other.
pub proof fn lemma_text_le_total(a: Seq<char>, b: Seq<char>)
    ensures
        text_le(a, b) || text_le(b, a),
    decreases a.len(),
{
    if a.len() > 0 && b.len() > 0 && a[0] == b[0] {
        lemma_text_le_total(a.drop_first(), b.drop_first());
    } else if a.len() > 0 && b.len() > 0 {
        vstd::utf8::char_u32_cast(a[0], a[0] as u32);
        vstd::utf8::char_u32_cast(b[0], b[0] as u32);
    }
}

/// Texts that sort before each other are equal.
pub proof fn lemma_text_le_antisymmetric(a: Seq<char>, b: Seq<char>)
    requires
        text_le(a, b),
        text_le(b, a),
    ensures
        a == b,
    decreases a.len(),
{
    if a.len() > 0 && b.len() > 0 {
        lemma_text_le_antisymmetric(a.drop_first(), b.drop_first());
        assert(a =~= seq![a[0]] + a.drop_first());
        assert(b =~= seq![b[0]] + b.drop_first());
    } else {
        assert(a.len() == 0 && b.len() == 0);
        assert(a =~= b);
    }
}

/// The order is transitive.
pub proof fn lemma_text_le_transitive(a: Seq<char>, b: Seq<char>, c: Seq<char>)
    requires
        text_le(a, b),
        text_le(b, c),
    ensures
        text_le(a, c),
    decreases a.len(),
{
    if a.len() > 0 && b.len() > 0 && c.len() > 0 && a[0] == b[0] && b[0] == c[0] {
        lemma_text_le_transitive(a.drop_first(), b.drop_first(), c.drop_first());
    }
}

/// The order, as a relation.
pub open spec fn text_order() -> spec_fn(Seq<char>, Seq<char>) -> bool {
    |a: Seq<char>, b: Seq<char>| text_le(a, b)
}

/// The order is a total order.
pub proof fn lemma_text_order_total()
    ensures
        vstd::relations::total_ordering(text_order()),
{
    assert forall|x: Seq<char>| #[trigger] text_order()(x, x) by {
        lemma_text_le_total(x, x);
    }
    assert forall|x: Seq<char>, y: Seq<char>| #[trigger] text_order()(x, y) && #[trigger] text_order()(y, x) implies x == y by {
        lemma_text_le_antisymmetric(x, y);
    }
    assert forall|x: Seq<char>, y: Seq<char>, z: Seq<char>| #[trigger] text_order()(x, y) && #[trigger] text_order()(y, z) implies text_order()(x, z) by {
        lemma_text_le_transitive(x, y, z);
    }
    assert forall|x: Seq<char>, y: Seq<char>| #[trigger] text_order()(x, y) || #[trigger] text_order()(y, x) by {
        lemma_text_le_total(x, y);
    }
}

/// Whether `a` sorts before `b` or equals it.
pub fn text_le_of(a: &str, b: &str) -> (r: bool)
    ensures
        r == text_le(a@, b@),
{
    broadcast use vstd::string::group_string_axioms;

    let mut ia = a.chars();
    let mut ib = b.chars();
    let ghost mut k: int = 0;
    assert(a@.skip(0) =~= a@);
    assert(b@.skip(0) =~= b@);
    loop
        invariant
            0 <= k <= a@.len(),
            k <= b@.len(),
            ia.remaining() == a@.skip(k),
            ib.remaining() == b@.skip(k),
            text_le(a@, b@) == text_le(a@.skip(k), b@.skip(k)),
        decreases a@.len() - k,
    {
        let ghost sa = a@.skip(k);
        let ghost sb = b@.skip(k);
        match ia.next() {
            None => {
                return true;
            },
            Some(x) => match ib.next() {
                None => {
                    return false;
                },
                Some(y) => {
                    if x != y {
                        return (x as u32) < (y as u32);
                    }
                    proof {
                        assert(sa.drop_first() =~= a@.skip(k + 1));
                        assert(sb.drop_first() =~= b@.skip(k + 1));
                        k = k + 1;
                    }
                },
            },
        }
    }
}

} // verus!
