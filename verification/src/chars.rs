//! Texts as sequences of characters: trimming, cutting, searching.
use crate::text;
use vstd::prelude::*;

verus! {

/// A character of the Unicode property `White_Space`.
pub open spec fn is_space(c: char) -> bool {
    let n = c as u32;
    (9 <= n <= 13) || n == 32 || n == 0x85 || n == 0xa0 || n == 0x1680 || (0x2000 <= n <= 0x200a)
        || n == 0x2028 || n == 0x2029 || n == 0x202f || n == 0x205f || n == 0x3000
}

/// What is trimmed off.
#[derive(Clone, Copy, Debug, PartialEq, Eq, Structural)]
pub enum Class {
    /// White space.
    Space,
    /// One character.
    Only(char),
}

impl Class {
    /// The character is of this class.
    pub open spec fn has(self, c: char) -> bool {
        match self {
            Class::Space => is_space(c),
            Class::Only(d) => c == d,
        }
    }

    /// Whether the character is of this class.
    pub fn contains(self, c: char) -> (r: bool)
        ensures
            r == self.has(c),
    {
        match self {
            Class::Space => {
                let n: u32 = c as u32;
                (9 <= n && n <= 13) || n == 32 || n == 0x85 || n == 0xa0 || n == 0x1680 || (0x2000
                    <= n && n <= 0x200a) || n == 0x2028 || n == 0x2029 || n == 0x202f || n == 0x205f
                    || n == 0x3000
            },
            Class::Only(d) => c == d,
        }
    }
}

/// `s` without leading characters of a class.
pub open spec fn trimmed_start(s: Seq<char>, k: Class) -> Seq<char>
    decreases s.len(),
{
    if s.len() > 0 && k.has(s[0]) {
        trimmed_start(s.skip(1), k)
    } else {
        s
    }
}

/// `s` without trailing characters of a class.
pub open spec fn trimmed_end(s: Seq<char>, k: Class) -> Seq<char>
    decreases s.len(),
{
    if s.len() > 0 && k.has(s.last()) {
        trimmed_end(s.drop_last(), k)
    } else {
        s
    }
}

/// `s` without leading and trailing characters of a class.
pub open spec fn trimmed(s: Seq<char>, k: Class) -> Seq<char> {
    trimmed_end(trimmed_start(s, k), k)
}

/// The characters from `a` to `b`.
pub fn piece(s: &Vec<char>, a: usize, b: usize) -> (r: Vec<char>)
    requires
        a <= b <= s@.len(),
    ensures
        r@ == s@.subrange(a as int, b as int),
{
    let mut out: Vec<char> = Vec::new();
    let mut i: usize = a;
    while i < b
        invariant
            a <= i <= b <= s@.len(),
            out@ == s@.subrange(a as int, i as int),
        decreases b - i,
    {
        out.push(s[i]);
        assert(out@ =~= s@.subrange(a as int, i as int + 1));
        i += 1;
    }
    out
}

/// Text of characters.
pub fn string_of(s: &Vec<char>) -> (r: String)
    ensures
        r@ == s@,
{
    let mut out = String::new();
    let mut i: usize = 0;
    assert(out@ =~= s@.take(0));
    while i < s.len()
        invariant
            0 <= i <= s.len(),
            out@ == s@.take(i as int),
        decreases s.len() - i,
    {
        text::push_char(&mut out, s[i]);
        assert(out@ =~= s@.take(i as int + 1));
        i += 1;
    }
    assert(s@.take(i as int) =~= s@);
    out
}

/// `s` without leading characters of a class.
pub fn trim_start(s: &Vec<char>, k: Class) -> (r: Vec<char>)
    ensures
        r@ == trimmed_start(s@, k),
{
    let mut i: usize = 0;
    assert(s@.skip(0) =~= s@);
    while i < s.len() && k.contains(s[i])
        invariant
            0 <= i <= s.len(),
            trimmed_start(s@, k) == trimmed_start(s@.skip(i as int), k),
        decreases s.len() - i,
    {
        assert(s@.skip(i as int).skip(1) =~= s@.skip(i as int + 1));
        i += 1;
    }
    let r = piece(s, i, s.len());
    assert(r@ =~= s@.skip(i as int));
    r
}

/// `s` without trailing characters of a class.
pub fn trim_end(s: &Vec<char>, k: Class) -> (r: Vec<char>)
    ensures
        r@ == trimmed_end(s@, k),
{
    let mut n: usize = s.len();
    assert(s@.take(n as int) =~= s@);
    while n > 0 && k.contains(s[n - 1])
        invariant
            0 <= n <= s.len(),
            trimmed_end(s@, k) == trimmed_end(s@.take(n as int), k),
        decreases n,
    {
        assert(s@.take(n as int).drop_last() =~= s@.take(n as int - 1));
        n -= 1;
    }
    let r = piece(s, 0, n);
    assert(r@ =~= s@.take(n as int));
    r
}

/// `s` without leading and trailing characters of a class.
pub fn trim(s: &Vec<char>, k: Class) -> (r: Vec<char>)
    ensures
        r@ == trimmed(s@, k),
{
    let t = trim_start(s, k);
    trim_end(&t, k)
}

/// A text without leading and trailing white space.
pub fn trim_text(s: &str) -> (r: String)
    ensures
        r@ == trimmed(s@, Class::Space),
{
    let cs = text::chars_of(s);
    string_of(&trim(&cs, Class::Space))
}

/// `s` cut at every `c`; never empty.
pub open spec fn split(s: Seq<char>, c: char) -> Seq<Seq<char>>
    decreases s.len(),
{
    if s.len() == 0 {
        seq![Seq::empty()]
    } else {
        let front = split(s.drop_last(), c);
        if s.last() == c {
            front.push(Seq::empty())
        } else {
            front.update(front.len() - 1, front.last().push(s.last()))
        }
    }
}

/// Cutting gives at least one part.
pub proof fn lemma_split_nonempty(s: Seq<char>, c: char)
    ensures
        split(s, c).len() > 0,
    decreases s.len(),
{
    if s.len() > 0 {
        lemma_split_nonempty(s.drop_last(), c);
    }
}

/// What vectors of characters hold.
pub open spec fn views(v: Seq<Vec<char>>) -> Seq<Seq<char>> {
    Seq::new(v.len(), |i: int| v[i]@)
}

/// `s` cut at every `c`.
pub fn split_at(s: &Vec<char>, c: char) -> (r: Vec<Vec<char>>)
    ensures
        views(r@) == split(s@, c),
{
    let mut done: Vec<Vec<char>> = Vec::new();
    let mut last: Vec<char> = Vec::new();
    let mut i: usize = 0;
    assert(s@.take(0) =~= Seq::empty());
    assert(views(done@).push(last@) =~= split(s@.take(0), c));
    while i < s.len()
        invariant
            0 <= i <= s.len(),
            views(done@).push(last@) == split(s@.take(i as int), c),
        decreases s.len() - i,
    {
        let ghost front = views(done@).push(last@);
        assert(s@.take(i as int + 1).drop_last() =~= s@.take(i as int));
        if s[i] == c {
            let ghost before = views(done@);
            let ghost ended = last@;
            done.push(last);
            last = Vec::new();
            assert(views(done@) =~= before.push(ended));
            assert(views(done@).push(last@) =~= split(s@.take(i as int + 1), c));
        } else {
            let ghost before = last@;
            last.push(s[i]);
            assert(views(done@).push(last@) =~= front.update(
                front.len() - 1,
                before.push(s@[i as int]),
            ));
        }
        i += 1;
    }
    assert(s@.take(i as int) =~= s@);
    let ghost before = views(done@);
    let ghost ended = last@;
    done.push(last);
    assert(views(done@) =~= before.push(ended));
    done
}

/// The place of the first `c`.
pub open spec fn first_of(s: Seq<char>, c: char) -> Option<nat>
    decreases s.len(),
{
    if s.len() == 0 {
        None
    } else if s[0] == c {
        Some(0nat)
    } else {
        match first_of(s.skip(1), c) {
            Some(i) => Some(i + 1),
            None => None,
        }
    }
}

/// The place of the first `c`.
pub fn find_char(s: &Vec<char>, c: char) -> (r: Option<usize>)
    ensures
        match (r, first_of(s@, c)) {
            (Some(i), Some(j)) => i == j && i < s@.len() && s@[i as int] == c,
            (None, None) => true,
            _ => false,
        },
{
    let mut i: usize = 0;
    assert(s@.skip(0) =~= s@);
    while i < s.len()
        invariant
            0 <= i <= s.len(),
            match (first_of(s@, c), first_of(s@.skip(i as int), c)) {
                (Some(a), Some(b)) => a == i + b,
                (None, None) => true,
                _ => false,
            },
        decreases s.len() - i,
    {
        if s[i] == c {
            return Some(i);
        }
        assert(s@.skip(i as int).skip(1) =~= s@.skip(i as int + 1));
        i += 1;
    }
    None
}

/// `p` stands at the start of `s`.
pub open spec fn has_prefix(s: Seq<char>, p: Seq<char>) -> bool {
    p.len() <= s.len() && s.take(p.len() as int) == p
}

/// Whether `p` stands at place `at` of `s`.
pub fn stands_at(s: &Vec<char>, at: usize, p: &Vec<char>) -> (r: bool)
    requires
        at <= s@.len(),
    ensures
        r == has_prefix(s@.skip(at as int), p@),
{
    if p.len() > s.len() - at {
        return false;
    }
    let mut i: usize = 0;
    while i < p.len()
        invariant
            0 <= i <= p.len(),
            at <= s@.len(),
            p.len() <= s.len() - at,
            forall|j: int| 0 <= j < i ==> s@[at + j] == p@[j],
        decreases p.len() - i,
    {
        if s[at + i] != p[i] {
            assert(s@.skip(at as int).take(p@.len() as int)[i as int] != p@[i as int]);
            return false;
        }
        i += 1;
    }
    assert(s@.skip(at as int).take(p@.len() as int) =~= p@);
    true
}

/// Whether a text starts with another.
pub fn starts_with(s: &str, p: &str) -> (r: bool)
    ensures
        r == has_prefix(s@, p@),
{
    let cs = text::chars_of(s);
    assert(cs@.skip(0) =~= cs@);
    stands_at(&cs, 0, &text::chars_of(p))
}

/// The first place where `p` stands in `s`.
pub open spec fn first_place(s: Seq<char>, p: Seq<char>) -> Option<nat>
    decreases s.len(),
{
    if has_prefix(s, p) {
        Some(0nat)
    } else if s.len() == 0 {
        None
    } else {
        match first_place(s.skip(1), p) {
            Some(i) => Some(i + 1),
            None => None,
        }
    }
}

/// The first place from `from` on where `p` stands in `s`.
pub fn find_from(s: &Vec<char>, from: usize, p: &Vec<char>) -> (r: Option<usize>)
    requires
        from <= s@.len(),
    ensures
        match (r, first_place(s@.skip(from as int), p@)) {
            (Some(i), Some(j)) => i == from + j && from <= i && i + p@.len() <= s@.len()
                && s@.subrange(i as int, i + p@.len()) == p@,
            (None, None) => true,
            _ => false,
        },
{
    let mut i: usize = from;
    while i <= s.len()
        invariant
            from <= i,
            i <= s@.len() + 1,
            from <= s@.len(),
            i <= s@.len() ==> match (
                first_place(s@.skip(from as int), p@),
                first_place(s@.skip(i as int), p@),
            ) {
                (Some(a), Some(b)) => from + a == i + b,
                (None, None) => true,
                _ => false,
            },
            i == s@.len() + 1 ==> first_place(s@.skip(from as int), p@) is None,
        decreases s@.len() + 1 - i,
    {
        if stands_at(s, i, p) {
            assert(s@.subrange(i as int, i + p@.len()) =~= s@.skip(i as int).take(
                p@.len() as int,
            ));
            return Some(i);
        }
        if i == s.len() {
            return None;
        }
        assert(s@.skip(i as int).skip(1) =~= s@.skip(i as int + 1));
        i += 1;
    }
    None
}

/// Whether a text holds another.
pub fn holds(s: &str, p: &str) -> (r: bool)
    ensures
        r == (first_place(s@, p@) is Some),
{
    let cs = text::chars_of(s);
    assert(cs@.skip(0) =~= cs@);
    find_from(&cs, 0, &text::chars_of(p)).is_some()
}

/// Every `a` replaced by `b`.
pub open spec fn swapped(s: Seq<char>, a: char, b: char) -> Seq<char> {
    Seq::new(
        s.len(),
        |i: int|
            if s[i] == a {
                b
            } else {
                s[i]
            },
    )
}

/// Every `a` replaced by `b`.
pub fn swap_char(s: &Vec<char>, a: char, b: char) -> (r: Vec<char>)
    ensures
        r@ == swapped(s@, a, b),
{
    let mut out: Vec<char> = Vec::new();
    let mut i: usize = 0;
    while i < s.len()
        invariant
            0 <= i <= s.len(),
            out@.len() == i,
            forall|j: int| 0 <= j < i ==> out@[j] == swapped(s@, a, b)[j],
        decreases s.len() - i,
    {
        if s[i] == a {
            out.push(b);
        } else {
            out.push(s[i]);
        }
        i += 1;
    }
    assert(out@ =~= swapped(s@, a, b));
    out
}

/// A text that occurs is found.
pub proof fn lemma_occurs(s: Seq<char>, p: Seq<char>, at: int)
    requires
        0 <= at,
        at + p.len() <= s.len(),
        s.subrange(at, at + p.len()) == p,
    ensures
        first_place(s, p) is Some,
    decreases at,
{
    if at == 0 {
        assert(s.take(p.len() as int) =~= p);
    } else if !has_prefix(s, p) {
        assert(s.skip(1).subrange(at - 1, at - 1 + p.len()) =~= p);
        lemma_occurs(s.skip(1), p, at - 1);
    }
}

/// The last part stands at the end.
pub proof fn lemma_last_part(s: Seq<char>, c: char)
    ensures
        split(s, c).len() > 0,
        split(s, c).last().len() <= s.len(),
        s.skip(s.len() - split(s, c).last().len()) == split(s, c).last(),
        split(s, c).len() == 1 ==> split(s, c)[0] == s,
    decreases s.len(),
{
    if s.len() == 0 {
        assert(s.skip(0) =~= Seq::empty());
        assert(s =~= Seq::empty());
    } else {
        let front = s.drop_last();
        lemma_last_part(front, c);
        let part = split(s, c).last();
        assert(s.skip(s.len() - part.len()) =~= part);
        if s.last() != c && split(front, c).len() == 1 {
            assert(front.push(s.last()) =~= s);
        }
    }
}

/// Every part occurs in what was cut.
pub proof fn lemma_part_occurs(s: Seq<char>, c: char, k: int)
    requires
        0 <= k < split(s, c).len(),
    ensures
        first_place(s, split(s, c)[k]) is Some,
    decreases s.len(),
{
    let part = split(s, c)[k];
    if k == split(s, c).len() - 1 {
        lemma_last_part(s, c);
        let at = s.len() - part.len();
        assert(s.subrange(at, at + part.len()) =~= s.skip(at));
        lemma_occurs(s, part, at);
    } else {
        let front = s.drop_last();
        lemma_split_nonempty(front, c);
        lemma_part_occurs(front, c, k);
        lemma_first_place(front, part);
        let at = first_place(front, part)->0 as int;
        assert(s.subrange(at, at + part.len()) =~= front.subrange(at, at + part.len()));
        lemma_occurs(s, part, at);
    }
}

/// Where a text is found, it stands.
pub proof fn lemma_first_place(s: Seq<char>, p: Seq<char>)
    ensures
        first_place(s, p) matches Some(i) ==> i + p.len() <= s.len() && s.subrange(
            i as int,
            i as int + p.len(),
        ) == p,
    decreases s.len(),
{
    if has_prefix(s, p) {
        assert(s.subrange(0, p.len() as int) =~= s.take(p.len() as int));
    } else if s.len() > 0 {
        lemma_first_place(s.skip(1), p);
        match first_place(s.skip(1), p) {
            Some(i) => {
                assert(s.subrange(i as int + 1, i as int + 1 + p.len()) =~= s.skip(1).subrange(
                    i as int,
                    i as int + p.len(),
                ));
            },
            None => {},
        }
    }
}

/// What stands behind the last `c` is the last part.
pub proof fn lemma_split_behind(a: Seq<char>, c: char, b: Seq<char>)
    requires
        !b.contains(c),
    ensures
        split(a + seq![c] + b, c) == split(a, c).push(b),
    decreases b.len(),
{
    let s = a + seq![c] + b;
    if b.len() == 0 {
        assert(s.drop_last() =~= a);
        assert(b =~= Seq::empty());
    } else {
        let d = b.drop_last();
        assert forall|x: char| d.contains(x) implies b.contains(x) by {
            let i = choose|i: int| 0 <= i < d.len() && d[i] == x;
            assert(b[i] == x);
        }
        lemma_split_behind(a, c, d);
        assert(s.drop_last() =~= a + seq![c] + d);
        assert(b.contains(b[b.len() - 1]));
        assert(s.last() == b.last());
        let front = split(a, c).push(d);
        assert(d.push(b.last()) =~= b);
        assert(front.update(front.len() - 1, front.last().push(b.last())) =~= split(a, c).push(b));
    }
}

/// Without a `c` there is nothing to cut.
pub proof fn lemma_split_whole(s: Seq<char>, c: char)
    requires
        !s.contains(c),
    ensures
        split(s, c) == seq![s],
    decreases s.len(),
{
    if s.len() == 0 {
        assert(s =~= Seq::empty());
    } else {
        let d = s.drop_last();
        assert forall|x: char| d.contains(x) implies s.contains(x) by {
            let i = choose|i: int| 0 <= i < d.len() && d[i] == x;
            assert(s[i] == x);
        }
        lemma_split_whole(d, c);
        assert(s.contains(s[s.len() - 1]));
        assert(d.push(s.last()) =~= s);
        assert(split(s, c) =~= seq![s]);
    }
}

/// A line without the carriage return at its end.
pub open spec fn without_return(s: Seq<char>) -> Seq<char> {
    if s.len() > 0 && s.last() == '\r' {
        s.drop_last()
    } else {
        s
    }
}

/// The lines of a text: what its line feeds end, and what follows the last one
/// if that is not empty. A carriage return before a line feed belongs to the
/// ending.
pub open spec fn lines(s: Seq<char>) -> Seq<Seq<char>> {
    let parts = split(s, '\n');
    let ended = Seq::new((parts.len() - 1) as nat, |i: int| without_return(parts[i]));
    if parts.last().len() == 0 {
        ended
    } else {
        ended.push(parts.last())
    }
}

/// The lines of a text.
pub fn lines_of(s: &str) -> (r: Vec<Vec<char>>)
    ensures
        views(r@) == lines(s@),
{
    let cs = text::chars_of(s);
    let ghost parts = split(s@, '\n');
    proof {
        lemma_split_nonempty(s@, '\n');
    }
    let pieces = split_at(&cs, '\n');
    let n: usize = pieces.len();
    assert(views(pieces@) == parts);
    let mut out: Vec<Vec<char>> = Vec::new();
    let mut i: usize = 0;
    while i + 1 < n
        invariant
            0 <= i < n,
            n == pieces@.len(),
            views(pieces@) == parts,
            out@.len() == i,
            forall|j: int| 0 <= j < i ==> (#[trigger] out@[j])@ == without_return(parts[j]),
        decreases n - i,
    {
        let line = &pieces[i];
        assert(line@ == parts[i as int]);
        if line.len() > 0 && line[line.len() - 1] == '\r' {
            let cut = piece(line, 0, line.len() - 1);
            assert(cut@ =~= line@.drop_last());
            out.push(cut);
        } else {
            let kept = piece(line, 0, line.len());
            assert(kept@ =~= line@);
            out.push(kept);
        }
        i += 1;
    }
    let last = &pieces[n - 1];
    assert(last@ == parts.last());
    if last.len() > 0 {
        let kept = piece(last, 0, last.len());
        assert(kept@ =~= last@);
        out.push(kept);
    }
    assert(views(out@) =~= lines(s@));
    out
}

/// What stands before the first space.
pub open spec fn word(s: Seq<char>) -> Seq<char>
    decreases s.len(),
{
    if s.len() == 0 || is_space(s[0]) {
        Seq::empty()
    } else {
        seq![s[0]] + word(s.skip(1))
    }
}

/// The first word of a text.
pub open spec fn first_word(s: Seq<char>) -> Option<Seq<char>> {
    let t = trimmed_start(s, Class::Space);
    if t.len() == 0 {
        None
    } else {
        Some(word(t))
    }
}

/// The first word of a text.
pub fn first_word_of(s: &Vec<char>) -> (r: Option<Vec<char>>)
    ensures
        match (r, first_word(s@)) {
            (Some(w), Some(m)) => w@ == m,
            (None, None) => true,
            _ => false,
        },
{
    let t = trim_start(s, Class::Space);
    if t.len() == 0 {
        return None;
    }
    let mut out: Vec<char> = Vec::new();
    let mut i: usize = 0;
    assert(t@.skip(0) =~= t@);
    assert(out@ + word(t@) =~= word(t@));
    while i < t.len()
        invariant
            0 <= i <= t.len(),
            t@ == trimmed_start(s@, Class::Space),
            out@ + word(t@.skip(i as int)) == word(t@),
        decreases t.len() - i,
    {
        let ghost here = t@.skip(i as int);
        let ghost before = out@;
        if Class::Space.contains(t[i]) {
            assert(word(here) =~= Seq::empty());
            assert(out@ =~= word(t@));
            return Some(out);
        }
        out.push(t[i]);
        assert(here.skip(1) =~= t@.skip(i as int + 1));
        assert(out@ + word(t@.skip(i as int + 1)) =~= before + (seq![here[0]] + word(here.skip(1))));
        i += 1;
    }
    assert(out@ =~= word(t@));
    Some(out)
}

/// The digits of a number, without a plus sign before them.
pub open spec fn unsigned(s: Seq<char>) -> Seq<char> {
    if s.len() > 1 && s[0] == '+' {
        s.skip(1)
    } else {
        s
    }
}

/// A text is a number that fits.
pub open spec fn number(s: Seq<char>) -> Option<u64> {
    let d = unsigned(s);
    if d.len() > 0 && (forall|i: int| 0 <= i < d.len() ==> text::is_digit(#[trigger] d[i]))
        && text::digits_value(d) <= u64::MAX {
        Some(text::digits_value(d) as u64)
    } else {
        None
    }
}

/// A number is at least as large as what its first digits say.
proof fn lemma_digits_grow(d: Seq<char>, k: int)
    requires
        0 <= k <= d.len(),
        forall|i: int| 0 <= i < d.len() ==> text::is_digit(#[trigger] d[i]),
    ensures
        text::digits_value(d.take(k)) <= text::digits_value(d),
    decreases d.len(),
{
    if k == d.len() {
        assert(d.take(k) =~= d);
    } else {
        let e = d.drop_last();
        assert forall|i: int| 0 <= i < e.len() implies text::is_digit(#[trigger] e[i]) by {
            assert(e[i] == d[i]);
        }
        lemma_digits_grow(e, k);
        assert(e.take(k) =~= d.take(k));
        assert(text::is_digit(d[d.len() - 1]));
    }
}

/// Reads a number.
pub fn parse_number(s: &Vec<char>) -> (r: Option<u64>)
    ensures
        r == number(s@),
{
    let from: usize = if s.len() > 1 && s[0] == '+' {
        1
    } else {
        0
    };
    let ghost d = unsigned(s@);
    assert(d =~= s@.skip(from as int));
    if s.len() == 0 {
        return None;
    }
    let mut value: u64 = 0;
    let mut fits = true;
    let mut i: usize = from;
    assert(d.take(0) =~= Seq::empty());
    while i < s.len()
        invariant
            from <= i <= s.len(),
            from < s.len(),
            d == s@.skip(from as int),
            d == unsigned(s@),
            forall|j: int| 0 <= j < i - from ==> text::is_digit(#[trigger] d[j]),
            fits ==> value == text::digits_value(d.take(i - from)),
            !fits ==> exists|k: int|
                0 <= k <= i - from && text::digits_value(#[trigger] d.take(k)) > u64::MAX,
        decreases s.len() - i,
    {
        let c = s[i];
        if !('0' <= c && c <= '9') {
            assert(!text::is_digit(d[i - from]));
            return None;
        }
        let digit: u64 = (c as u32 - '0' as u32) as u64;
        let ghost k = i - from;
        assert(d.take(k + 1).drop_last() =~= d.take(k));
        assert(d.take(k + 1).last() == c);
        if fits {
            let wide: u128 = value as u128 * 10 + digit as u128;
            assert(text::digits_value(d.take(k + 1)) == wide);
            if wide <= 0xffff_ffff_ffff_ffff {
                value = wide as u64;
            } else {
                fits = false;
            }
        }
        i += 1;
    }
    assert(d.take(i - from) =~= d);
    if fits {
        Some(value)
    } else {
        proof {
            let k = choose|k: int|
                0 <= k <= i - from && text::digits_value(#[trigger] d.take(k)) > u64::MAX;
            lemma_digits_grow(d, k);
        }
        None
    }
}

/// Trimming takes characters of the class off the ends and nothing else: what
/// is left stands in the text, only such characters stand before and behind
/// it, and it neither starts nor ends with one.
pub proof fn trimming_takes_the_ends(s: Seq<char>, k: Class) -> (r: (int, int))
    ensures
        ({
            let (a, b) = r;
            &&& 0 <= a <= b <= s.len()
            &&& trimmed(s, k) == s.subrange(a, b)
            &&& forall|i: int| 0 <= i < a ==> k.has(#[trigger] s[i])
            &&& forall|i: int| b <= i < s.len() ==> k.has(#[trigger] s[i])
            &&& a < b ==> !k.has(s[a]) && !k.has(s[b - 1])
        }),
{
    let a = trimming_takes_the_start(s, k);
    let t = s.skip(a);
    let b = trimming_takes_the_end(t, k);
    assert(t.take(b) =~= s.subrange(a, a + b));
    assert forall|i: int| a + b <= i < s.len() implies k.has(#[trigger] s[i]) by {
        assert(s[i] == t[i - a]);
    }
    if b > 0 {
        assert(t[b - 1] == s[a + b - 1]);
        if k.has(s[a]) {
            assert(a == s.len());
        }
    }
    (a, a + b)
}

/// Trimming the start takes the characters of the class there and no others.
pub proof fn trimming_takes_the_start(s: Seq<char>, k: Class) -> (a: int)
    ensures
        0 <= a <= s.len(),
        trimmed_start(s, k) == s.skip(a),
        forall|i: int| 0 <= i < a ==> k.has(#[trigger] s[i]),
        a < s.len() ==> !k.has(s[a]),
    decreases s.len(),
{
    if s.len() > 0 && k.has(s[0]) {
        let t = s.skip(1);
        let b = trimming_takes_the_start(t, k);
        assert(t.skip(b) =~= s.skip(b + 1));
        assert forall|i: int| 0 <= i < b + 1 implies k.has(#[trigger] s[i]) by {
            if i > 0 {
                assert(s[i] == t[i - 1]);
            }
        }
        if b + 1 < s.len() {
            assert(s[b + 1] == t[b]);
        }
        b + 1
    } else {
        assert(s.skip(0) =~= s);
        0
    }
}

/// Trimming the end takes the characters of the class there and no others.
pub proof fn trimming_takes_the_end(s: Seq<char>, k: Class) -> (b: int)
    ensures
        0 <= b <= s.len(),
        trimmed_end(s, k) == s.take(b),
        forall|i: int| b <= i < s.len() ==> k.has(#[trigger] s[i]),
        b > 0 ==> !k.has(s[b - 1]),
    decreases s.len(),
{
    if s.len() > 0 && k.has(s.last()) {
        let t = s.drop_last();
        let b = trimming_takes_the_end(t, k);
        assert(t.take(b) =~= s.take(b));
        assert forall|i: int| b <= i < s.len() implies k.has(#[trigger] s[i]) by {
            if i < t.len() {
                assert(s[i] == t[i]);
            }
        }
        b
    } else {
        assert(s.take(s.len() as int) =~= s);
        s.len() as int
    }
}

/// The ASCII characters that are white space: the blank, and those from the
/// tab to the carriage return.
pub proof fn ascii_white_space(c: char)
    requires
        c as u32 <= 127,
    ensures
        Class::Space.has(c) <==> c == ' ' || c == '\t' || c == '\n' || c == '\r' || c as u32 == 11
            || c as u32 == 12,
{
}

/// Texts with a separator between neighbours.
pub open spec fn with_between(parts: Seq<Seq<char>>, sep: char) -> Seq<char>
    decreases parts.len(),
{
    if parts.len() == 0 {
        Seq::empty()
    } else if parts.len() == 1 {
        parts[0]
    } else {
        with_between(parts.drop_last(), sep) + seq![sep] + parts.last()
    }
}

/// Cutting a text loses nothing: the parts, with the character between them,
/// are the text, and no part holds the character.
pub proof fn parts_make_the_text(s: Seq<char>, c: char)
    ensures
        with_between(split(s, c), c) == s,
        forall|i: int| 0 <= i < split(s, c).len() ==> !(#[trigger] split(s, c)[i]).contains(c),
        split(s, c).len() > 0,
    decreases s.len(),
{
    lemma_split_nonempty(s, c);
    if s.len() == 0 {
        assert(split(s, c)[0] =~= s);
    } else {
        let d = s.drop_last();
        let front = split(d, c);
        let parts = split(s, c);
        parts_make_the_text(d, c);
        lemma_split_nonempty(d, c);
        if s.last() == c {
            assert(parts.drop_last() =~= front);
            assert(with_between(parts, c) =~= s);
            assert forall|i: int| 0 <= i < parts.len() implies !(#[trigger] parts[i]).contains(
                c,
            ) by {
                if i < front.len() {
                    assert(parts[i] == front[i]);
                }
            }
        } else {
            let x = front.last();
            assert(parts.last() == x.push(s.last()));
            assert(d.push(s.last()) =~= s);
            if front.len() == 1 {
                assert(with_between(front, c) == x);
                assert(with_between(parts, c) == parts[0]);
            } else {
                assert(parts.drop_last() =~= front.drop_last());
                let start = with_between(front.drop_last(), c) + seq![c];
                assert(with_between(front, c) == start + x);
                assert(with_between(parts, c) == start + x.push(s.last()));
                assert(start + x.push(s.last()) =~= (start + x).push(s.last()));
            }
            assert forall|i: int| 0 <= i < parts.len() implies !(#[trigger] parts[i]).contains(
                c,
            ) by {
                if i < front.len() - 1 {
                    assert(parts[i] == front[i]);
                } else {
                    assert(!front[front.len() - 1].contains(c));
                    if parts[i].contains(c) {
                        let j = choose|j: int| 0 <= j < parts[i].len() && parts[i][j] == c;
                        assert(x[j] == c);
                    }
                }
            }
        }
    }
}

/// The first place of a character is one where it stands, with none before;
/// there is none exactly when the text does not hold it.
pub proof fn first_of_is_first(s: Seq<char>, c: char)
    ensures
        first_of(s, c) matches Some(i) ==> i < s.len() && s[i as int] == c && forall|j: int|
            0 <= j < i ==> #[trigger] s[j] != c,
        first_of(s, c) is None ==> forall|j: int| 0 <= j < s.len() ==> #[trigger] s[j] != c,
    decreases s.len(),
{
    if s.len() > 0 && s[0] != c {
        let t = s.skip(1);
        first_of_is_first(t, c);
        match first_of(t, c) {
            Some(i) => {
                assert(s[i as int + 1] == t[i as int]);
                assert forall|j: int| 0 <= j < i + 1 implies #[trigger] s[j] != c by {
                    if j > 0 {
                        assert(s[j] == t[j - 1]);
                    }
                }
            },
            None => {
                assert forall|j: int| 0 <= j < s.len() implies #[trigger] s[j] != c by {
                    if j > 0 {
                        assert(s[j] == t[j - 1]);
                    }
                }
            },
        }
    }
}

/// The first place of a text in another is one where it stands, with none
/// before; there is none exactly when it stands nowhere.
pub proof fn first_place_is_first(s: Seq<char>, p: Seq<char>, at: int)
    requires
        0 <= at,
        at + p.len() <= s.len(),
        s.subrange(at, at + p.len()) == p,
    ensures
        first_place(s, p) matches Some(i) && i <= at && s.subrange(
            i as int,
            i as int + p.len(),
        ) == p,
    decreases s.len(),
{
    lemma_first_place(s, p);
    if at == 0 {
        assert(s.take(p.len() as int) =~= s.subrange(0, p.len() as int));
    } else if !has_prefix(s, p) {
        let t = s.skip(1);
        assert(t.subrange(at - 1, at - 1 + p.len()) =~= s.subrange(at, at + p.len()));
        first_place_is_first(t, p, at - 1);
    }
}

/// A number in decimal reads as that number, with or without a plus sign.
pub proof fn decimals_read_back(n: u64)
    ensures
        number(text::decimal(n as nat)) == Some(n),
        number(seq!['+'] + text::decimal(n as nat)) == Some(n),
{
    let d = text::decimal(n as nat);
    text::lemma_decimal(n as nat);
    assert(d.len() > 0);
    assert(text::is_digit(d[0]));
    let p = seq!['+'] + d;
    assert(p.skip(1) =~= d);
}

/// What is no number is refused: nothing at all, anything with a character
/// that is no digit, and what does not fit.
pub proof fn only_numbers_read(s: Seq<char>)
    ensures
        number(s) matches Some(v) ==> s.len() > 0 && text::digits_value(
            if s.len() > 1 && s[0] == '+' {
                s.skip(1)
            } else {
                s
            },
        ) == v && forall|i: int| 1 <= i < s.len() ==> text::is_digit(#[trigger] s[i]),
{
    if number(s) is Some && s.len() > 1 && s[0] == '+' {
        let d = s.skip(1);
        assert forall|i: int| 1 <= i < s.len() implies text::is_digit(#[trigger] s[i]) by {
            assert(s[i] == d[i - 1]);
        }
    }
}

/// The first word of a text is what stands between the white space before it
/// and that behind it; a text of white space has none.
pub proof fn the_first_word_is_found(space: Seq<char>, w: Seq<char>, rest: Seq<char>)
    requires
        forall|i: int| 0 <= i < space.len() ==> is_space(#[trigger] space[i]),
        forall|i: int| 0 <= i < w.len() ==> !is_space(#[trigger] w[i]),
        rest.len() == 0 || is_space(rest[0]),
        w.len() > 0,
    ensures
        first_word(space + w + rest) == Some(w),
        first_word(space) is None,
{
    let s = space + w + rest;
    let a = trimming_takes_the_start(s, Class::Space);
    let n = space.len() as int;
    if a < n {
        assert(s[a] == space[a]);
    }
    if a > n {
        assert(s[n] == w[0]);
    }
    assert(s.skip(n) =~= w + rest);
    lemma_word(w, rest);
    let b = trimming_takes_the_start(space, Class::Space);
    if b < n {
        assert(is_space(space[b]));
    }
}

proof fn lemma_word(w: Seq<char>, rest: Seq<char>)
    requires
        forall|i: int| 0 <= i < w.len() ==> !is_space(#[trigger] w[i]),
        rest.len() == 0 || is_space(rest[0]),
    ensures
        word(w + rest) == w,
    decreases w.len(),
{
    let s = w + rest;
    if w.len() == 0 {
        assert(s =~= rest);
        assert(word(s) =~= w);
    } else {
        let t = w.skip(1);
        assert forall|i: int| 0 <= i < t.len() implies !is_space(#[trigger] t[i]) by {
            assert(t[i] == w[i + 1]);
        }
        lemma_word(t, rest);
        assert(s.skip(1) =~= t + rest);
        assert(s[0] == w[0]);
        assert(seq![w[0]] + t =~= w);
    }
}

/// Cutting a text at a character cuts what stands before it and what stands
/// behind it.
pub proof fn cutting_goes_part_by_part(a: Seq<char>, c: char, b: Seq<char>)
    ensures
        split(a + seq![c] + b, c) == split(a, c) + split(b, c),
    decreases b.len(),
{
    let s = a + seq![c] + b;
    lemma_split_nonempty(a, c);
    if b.len() == 0 {
        assert(s.drop_last() =~= a);
        assert(split(s, c) =~= split(a, c) + split(b, c));
    } else {
        let d = b.drop_last();
        cutting_goes_part_by_part(a, c, d);
        lemma_split_nonempty(d, c);
        assert(s.drop_last() =~= a + seq![c] + d);
        assert(s.last() == b.last());
        let front = split(a, c) + split(d, c);
        if b.last() == c {
            assert(split(s, c) =~= split(a, c) + split(b, c));
        } else {
            assert(front.last() == split(d, c).last());
            assert(split(s, c) =~= split(a, c) + split(b, c));
        }
    }
}

/// The lines of a text are its first line, without the carriage return that
/// ends it, and the lines behind it; the last line need not be ended.
pub proof fn lines_follow_each_other(line: Seq<char>, rest: Seq<char>)
    requires
        !line.contains('\n'),
    ensures
        lines(line + seq!['\n'] + rest) == seq![
            if line.len() > 0 && line.last() == '\r' {
                line.drop_last()
            } else {
                line
            },
        ] + lines(rest),
        line.len() > 0 ==> lines(line) == seq![line],
        lines(Seq::empty()).len() == 0,
{
    cutting_goes_part_by_part(line, '\n', rest);
    lemma_split_whole(line, '\n');
    lemma_split_nonempty(rest, '\n');
    let s = line + seq!['\n'] + rest;
    let parts = split(s, '\n');
    assert(parts == seq![line] + split(rest, '\n'));
    assert(parts.last() == split(rest, '\n').last());
    assert(lines(s) =~= seq![without_return(line)] + lines(rest));
    assert(lines(line) =~= if line.len() == 0 {
        Seq::empty()
    } else {
        seq![line]
    });
}

} // verus!
