//! Text scanning on characters: substring search, splitting into lines and words, and
//! decimal numbers.

use vstd::prelude::*;
use vstd::string::*;

verus! {

// ---------------------------------------------------------------------------------------
// Searching
// ---------------------------------------------------------------------------------------

/// `pat` stands in `s` at position `i`.
pub open spec fn occurs_at(s: Seq<char>, pat: Seq<char>, i: int) -> bool {
    &&& 0 <= i
    &&& i + pat.len() <= s.len()
    &&& s.subrange(i, i + pat.len()) == pat
}

/// `i` is the first position of `pat` in `s`.
pub open spec fn first_at(s: Seq<char>, pat: Seq<char>, i: int) -> bool {
    &&& occurs_at(s, pat, i)
    &&& forall|j: int| 0 <= j < i ==> !#[trigger] occurs_at(s, pat, j)
}

/// The first position of `pat` in `s`, if there is one.
pub open spec fn find_spec(s: Seq<char>, pat: Seq<char>) -> Option<int> {
    if exists|i: int| first_at(s, pat, i) {
        Some(choose|i: int| first_at(s, pat, i))
    } else {
        None
    }
}

/// A first position is the one that the search reports.
pub proof fn lemma_find_first(s: Seq<char>, pat: Seq<char>, i: int)
    requires
        first_at(s, pat, i),
    ensures
        find_spec(s, pat) == Some(i),
{
    let k = choose|k: int| first_at(s, pat, k);
    assert(first_at(s, pat, k));
    assert(occurs_at(s, pat, i) && occurs_at(s, pat, k));
    if k < i {
        assert(!occurs_at(s, pat, k));
    } else if i < k {
        assert(!occurs_at(s, pat, i));
    }
}

/// The characters of `s`, for access by position.
pub fn chars_of(s: &str) -> (v: Vec<char>)
    ensures
        v@ == s@,
{
    let mut v: Vec<char> = Vec::new();
    for c in it: s.chars()
        invariant
            it.seq() == s@,
            v@ == it.seq().take(it.index() as int),
    {
        v.push(c);
    }
    v
}

/// Whether `pat` stands in `s` at position `at`.
pub fn stands_at(s: &Vec<char>, pat: &Vec<char>, at: usize) -> (res: bool)
    ensures
        res == occurs_at(s@, pat@, at as int),
{
    if at > s.len() || pat.len() > s.len() - at {
        return false;
    }
    let mut k: usize = 0;
    while k < pat.len()
        invariant
            at + pat.len() <= s.len(),
            0 <= k <= pat.len(),
            forall|j: int| 0 <= j < k ==> s@[at + j] == pat@[j],
        decreases pat.len() - k,
    {
        if s[at + k] != pat[k] {
            assert(s@.subrange(at as int, at + pat.len())[k as int] != pat@[k as int]);
            return false;
        }
        k += 1;
    }
    assert(s@.subrange(at as int, at + pat.len()) =~= pat@);
    true
}

/// The first position of `pat` in `s`.
pub fn find(s: &Vec<char>, pat: &str) -> (res: Option<usize>)
    ensures
        match res {
            Some(i) => first_at(s@, pat@, i as int) && find_spec(s@, pat@) == Some(i as int),
            None => find_spec(s@, pat@) is None && forall|j: int| !#[trigger] occurs_at(s@, pat@, j),
        },
{
    let p: Vec<char> = chars_of(pat);
    let mut i: usize = 0;
    while i < s.len()
        invariant
            p@ == pat@,
            i <= s.len(),
            forall|j: int| 0 <= j < i ==> !#[trigger] occurs_at(s@, p@, j),
        decreases s.len() - i,
    {
        if stands_at(s, &p, i) {
            proof {
                lemma_find_first(s@, p@, i as int);
            }
            return Some(i);
        }
        i += 1;
    }
    if stands_at(s, &p, i) {
        proof {
            lemma_find_first(s@, p@, i as int);
        }
        Some(i)
    } else {
        None
    }
}

/// Whether two strings hold the same characters.
pub fn same(a: &str, b: &str) -> (res: bool)
    ensures
        res == (a@ == b@),
{
    a.to_owned() == b.to_owned()
}

// ---------------------------------------------------------------------------------------
// Splitting
// ---------------------------------------------------------------------------------------

/// What a text is split at.
#[derive(Clone, Copy)]
pub enum Sep {
    /// The path separator.
    Slash,
    /// The line feed.
    LineFeed,
    /// Any white space.
    Space,
}

/// The characters with the Unicode property `White_Space`.
pub open spec fn is_space(c: char) -> bool {
    let n = c as int;
    ||| 0x09 <= n <= 0x0d
    ||| n == 0x20
    ||| n == 0x85
    ||| n == 0xa0
    ||| n == 0x1680
    ||| 0x2000 <= n <= 0x200a
    ||| n == 0x2028
    ||| n == 0x2029
    ||| n == 0x202f
    ||| n == 0x205f
    ||| n == 0x3000
}

/// Whether `c` separates.
pub open spec fn separates(sep: Sep, c: char) -> bool {
    match sep {
        Sep::Slash => c == '/',
        Sep::LineFeed => c == '\n',
        Sep::Space => is_space(c),
    }
}

/// Whether `c` is white space.
pub fn space(c: char) -> (res: bool)
    ensures
        res == is_space(c),
{
    let n: u32 = c as u32;
    (0x09 <= n && n <= 0x0d) || n == 0x20 || n == 0x85 || n == 0xa0 || n == 0x1680 || (0x2000 <= n
        && n <= 0x200a) || n == 0x2028 || n == 0x2029 || n == 0x202f || n == 0x205f || n == 0x3000
}

fn is_separator(sep: Sep, c: char) -> (res: bool)
    ensures
        res == separates(sep, c),
{
    match sep {
        Sep::Slash => c == '/',
        Sep::LineFeed => c == '\n',
        Sep::Space => space(c),
    }
}

/// The pieces of `s` between separators: one more than there are separators.
pub open spec fn pieces(s: Seq<char>, sep: Sep) -> Seq<Seq<char>>
    decreases s.len(),
{
    if s.len() == 0 {
        seq![Seq::empty()]
    } else {
        let before = pieces(s.drop_last(), sep);
        if separates(sep, s.last()) {
            before.push(Seq::empty())
        } else {
            before.drop_last().push(before.last().push(s.last()))
        }
    }
}

/// The contents of a list of owned strings.
pub open spec fn texts(v: Seq<String>) -> Seq<Seq<char>> {
    Seq::new(v.len(), |i: int| v[i]@)
}

/// The contents of a list of strings.
pub open spec fn views(v: Seq<&str>) -> Seq<Seq<char>> {
    Seq::new(v.len(), |i: int| v[i]@)
}

/// There is always at least one piece.
pub proof fn lemma_pieces_some(s: Seq<char>, sep: Sep)
    ensures
        pieces(s, sep).len() >= 1,
    decreases s.len(),
{
    if s.len() > 0 {
        lemma_pieces_some(s.drop_last(), sep);
    }
}

/// A text without separators is one piece.
pub proof fn lemma_one_piece(s: Seq<char>, sep: Sep)
    requires
        forall|k: int| 0 <= k < s.len() ==> !separates(sep, #[trigger] s[k]),
    ensures
        pieces(s, sep) == seq![s],
    decreases s.len(),
{
    if s.len() > 0 {
        assert forall|k: int| 0 <= k < s.drop_last().len() implies !separates(
            sep,
            #[trigger] s.drop_last()[k],
        ) by {
            assert(s.drop_last()[k] == s[k]);
        }
        lemma_one_piece(s.drop_last(), sep);
        assert(!separates(sep, s[s.len() - 1]));
        assert(s.drop_last().push(s.last()) =~= s);
        assert(pieces(s, sep) =~= seq![s]);
    } else {
        assert(s =~= Seq::<char>::empty());
    }
}

/// A separator between two texts parts their pieces.
pub proof fn lemma_pieces_parted(a: Seq<char>, c: char, b: Seq<char>, sep: Sep)
    requires
        separates(sep, c),
    ensures
        pieces(a.push(c) + b, sep) == pieces(a, sep) + pieces(b, sep),
    decreases b.len(),
{
    let whole = a.push(c) + b;
    let pa = pieces(a, sep);
    let pb = pieces(b, sep);
    if b.len() == 0 {
        assert(whole =~= a.push(c));
        assert(whole.drop_last() =~= a);
        assert(pieces(whole, sep) =~= pa + pb);
    } else {
        let shorter = b.drop_last();
        lemma_pieces_parted(a, c, shorter, sep);
        lemma_pieces_some(shorter, sep);
        let ps = pieces(shorter, sep);
        assert(whole.drop_last() =~= a.push(c) + shorter);
        assert(whole.last() == b.last());
        assert((pa + ps).last() == ps.last());
        assert(pieces(whole, sep) =~= pa + pb);
    }
}

/// Splits `s` at every separator.
pub fn split<'a>(s: &'a str, sep: Sep) -> (v: Vec<&'a str>)
    ensures
        views(v@) == pieces(s@, sep),
{
    let cs: Vec<char> = chars_of(s);
    let mut v: Vec<&'a str> = Vec::new();
    let mut start: usize = 0;
    let mut i: usize = 0;
    proof {
        assert(s@.take(0) =~= Seq::<char>::empty());
        assert(s@.subrange(0, 0) =~= Seq::<char>::empty());
        assert(pieces(s@.take(0), sep) =~= views(v@).push(s@.subrange(0, 0)));
    }
    while i < cs.len()
        invariant
            cs@ == s@,
            start <= i <= cs.len(),
            pieces(s@.take(i as int), sep) == views(v@).push(s@.subrange(start as int, i as int)),
        decreases cs.len() - i,
    {
        let ghost shorter = s@.take(i as int);
        let ghost longer = s@.take(i + 1);
        assert(longer.drop_last() =~= shorter);
        assert(longer.last() == cs@[i as int]);
        if is_separator(sep, cs[i]) {
            let piece: &'a str = s.substring_char(start, i);
            let ghost before = views(v@);
            v.push(piece);
            start = i + 1;
            assert(views(v@) =~= before.push(piece@));
            assert(s@.subrange(start as int, i + 1) =~= Seq::<char>::empty());
        } else {
            let ghost head = views(v@);
            assert(head.push(s@.subrange(start as int, i as int)).drop_last() =~= head);
            assert(s@.subrange(start as int, i + 1) =~= s@.subrange(start as int, i as int).push(
                cs@[i as int],
            ));
        }
        i += 1;
    }
    assert(s@.take(i as int) =~= s@);
    let ghost before = views(v@);
    let last: &'a str = s.substring_char(start, i);
    v.push(last);
    assert(views(v@) =~= before.push(last@));
    v
}

/// A piece without a carriage return at its end.
pub open spec fn chomp(s: Seq<char>) -> Seq<char> {
    if s.len() > 0 && s.last() == '\r' {
        s.drop_last()
    } else {
        s
    }
}

/// The lines of `s`: each ends in a line feed, or in a carriage return and a line feed, which
/// do not belong to it; the last line may lack them.
pub open spec fn lines_spec(s: Seq<char>) -> Seq<Seq<char>> {
    let ps = pieces(s, Sep::LineFeed);
    let ended = Seq::new((ps.len() - 1) as nat, |i: int| chomp(ps[i]));
    if ps.last().len() == 0 {
        ended
    } else {
        ended.push(ps.last())
    }
}

fn chomped<'a>(s: &'a str) -> (r: &'a str)
    ensures
        r@ == chomp(s@),
{
    let n: usize = s.unicode_len();
    if n > 0 && s.get_char(n - 1) == '\r' {
        s.substring_char(0, n - 1)
    } else {
        s
    }
}

/// Splits `s` into its lines.
pub fn lines<'a>(s: &'a str) -> (v: Vec<&'a str>)
    ensures
        views(v@) == lines_spec(s@),
{
    let ps: Vec<&'a str> = split(s, Sep::LineFeed);
    proof {
        lemma_pieces_some(s@, Sep::LineFeed);
        assert(views(ps@).len() == ps@.len());
    }
    let mut v: Vec<&'a str> = Vec::new();
    let mut i: usize = 0;
    while i < ps.len() - 1
        invariant
            1 <= ps.len(),
            i <= ps.len() - 1,
            v.len() == i,
            forall|j: int| 0 <= j < i ==> v@[j]@ == chomp(#[trigger] ps@[j]@),
        decreases ps.len() - i,
    {
        v.push(chomped(ps[i]));
        i += 1;
    }
    let ghost ended = views(v@);
    let last: &'a str = ps[i];
    if last.unicode_len() > 0 {
        v.push(last);
    }
    proof {
        let all = pieces(s@, Sep::LineFeed);
        assert(all.last() == last@);
        assert(ended =~= Seq::new((all.len() - 1) as nat, |i: int| chomp(all[i])));
        if last@.len() > 0 {
            assert(views(v@) =~= ended.push(last@));
        }
    }
    v
}

/// Lines with a line feed behind each.
pub open spec fn unlines(lines: Seq<Seq<char>>) -> Seq<char>
    decreases lines.len(),
{
    if lines.len() == 0 {
        seq![]
    } else {
        unlines(lines.drop_last()) + lines.last() + "\n"@
    }
}

/// The text of two lists of lines is that of the one, then that of the other.
pub proof fn lemma_unlines_add(a: Seq<Seq<char>>, b: Seq<Seq<char>>)
    ensures
        unlines(a + b) == unlines(a) + unlines(b),
    decreases b.len(),
{
    if b.len() == 0 {
        assert(a + b =~= a);
        assert(unlines(a) + unlines(b) =~= unlines(a));
    } else {
        lemma_unlines_add(a, b.drop_last());
        assert((a + b).drop_last() =~= a + b.drop_last());
        assert((a + b).last() == b.last());
        assert(unlines(a + b) =~= unlines(a) + unlines(b));
    }
}

/// The text of one line.
pub proof fn lemma_unlines_one(line: Seq<char>)
    ensures
        unlines(seq![line]) == line + "\n"@,
{
    let one = seq![line];
    assert(one.drop_last() =~= Seq::<Seq<char>>::empty());
    assert(unlines(one.drop_last()) =~= Seq::<char>::empty());
    assert(one.last() == line);
    assert(unlines(one) =~= line + "\n"@);
}

/// A line: without line feeds, and without a carriage return at its end.
pub open spec fn is_line(line: Seq<char>) -> bool {
    &&& forall|k: int| 0 <= k < line.len() ==> #[trigger] line[k] != '\n'
    &&& line.len() > 0 ==> line.last() != '\r'
}

proof fn lemma_pieces_unlines(lines: Seq<Seq<char>>)
    requires
        forall|i: int| 0 <= i < lines.len() ==> is_line(#[trigger] lines[i]),
    ensures
        pieces(unlines(lines), Sep::LineFeed) == lines.push(Seq::empty()),
    decreases lines.len(),
{
    reveal_strlit("\n");
    assert("\n"@ =~= seq!['\n']);
    let none = Seq::<char>::empty();
    if lines.len() == 0 {
        assert(pieces(unlines(lines), Sep::LineFeed) =~= lines.push(none));
    } else {
        let head = lines.drop_last();
        let last = lines.last();
        assert forall|i: int| 0 <= i < head.len() implies is_line(#[trigger] head[i]) by {
            assert(head[i] == lines[i]);
        }
        lemma_pieces_unlines(head);
        assert(is_line(lines[lines.len() - 1]));
        lemma_one_piece(last, Sep::LineFeed);
        let before = unlines(head);
        let body = before + last;
        if head.len() == 0 {
            assert(body =~= last);
        } else {
            let x = before.drop_last();
            assert(before == unlines(head.drop_last()) + head.last() + "\n"@);
            assert(before =~= x.push('\n'));
            assert(before.last() == '\n');
            assert(pieces(before, Sep::LineFeed) == pieces(x, Sep::LineFeed).push(none));
            assert(head.push(none).drop_last() =~= head);
            assert(pieces(x, Sep::LineFeed).push(none).drop_last() =~= pieces(x, Sep::LineFeed));
            lemma_pieces_parted(x, '\n', last, Sep::LineFeed);
        }
        assert(pieces(body, Sep::LineFeed) =~= lines);
        assert(unlines(lines) =~= body.push('\n') + none);
        lemma_pieces_parted(body, '\n', none, Sep::LineFeed);
        assert(pieces(unlines(lines), Sep::LineFeed) =~= lines.push(none));
    }
}

/// Lines that were put together are found again.
pub proof fn law_lines_read_back(lines: Seq<Seq<char>>)
    requires
        forall|i: int| 0 <= i < lines.len() ==> is_line(#[trigger] lines[i]),
    ensures
        lines_spec(unlines(lines)) == lines,
{
    lemma_pieces_unlines(lines);
    assert forall|i: int| 0 <= i < lines.len() implies chomp(#[trigger] lines[i]) == lines[i] by {
        assert(is_line(lines[i]));
    }
    assert(lines_spec(unlines(lines)) =~= lines);
}

/// The words of `s`: its pieces between white space that are not empty.
pub open spec fn words_spec(s: Seq<char>) -> Seq<Seq<char>> {
    pieces(s, Sep::Space).filter(|w: Seq<char>| w.len() > 0)
}

/// Splits `s` into its words.
pub fn words<'a>(s: &'a str) -> (v: Vec<&'a str>)
    ensures
        views(v@) == words_spec(s@),
        forall|i: int| 0 <= i < v@.len() ==> (#[trigger] v@[i])@.len() > 0,
{
    let ps: Vec<&'a str> = split(s, Sep::Space);
    let mut v: Vec<&'a str> = Vec::new();
    let mut i: usize = 0;
    let ghost full = |w: Seq<char>| w.len() > 0;
    proof {
        reveal(Seq::filter);
        assert(views(ps@).take(0).filter(full) =~= views(v@));
    }
    while i < ps.len()
        invariant
            i <= ps.len(),
            full == (|w: Seq<char>| w.len() > 0),
            views(v@) == views(ps@).take(i as int).filter(full),
            forall|j: int| 0 <= j < v@.len() ==> (#[trigger] v@[j])@.len() > 0,
        decreases ps.len() - i,
    {
        let piece: &'a str = ps[i];
        let ghost before = views(v@);
        proof {
            reveal(Seq::filter);
            let longer = views(ps@).take(i + 1);
            assert(longer.drop_last() =~= views(ps@).take(i as int));
            assert(longer.last() == piece@);
        }
        if piece.unicode_len() > 0 {
            v.push(piece);
            assert(views(v@) =~= before.push(piece@));
        }
        i += 1;
    }
    assert(views(ps@).take(i as int) =~= pieces(s@, Sep::Space));
    v
}

/// The words of two texts with white space between them are those of the one, then those of the
/// other.
pub proof fn lemma_words_parted(a: Seq<char>, c: char, b: Seq<char>)
    requires
        is_space(c),
    ensures
        words_spec(a.push(c) + b) == words_spec(a) + words_spec(b),
{
    lemma_pieces_parted(a, c, b, Sep::Space);
    Seq::filter_distributes_over_add(
        pieces(a, Sep::Space),
        pieces(b, Sep::Space),
        |w: Seq<char>| w.len() > 0,
    );
}

/// A text without white space is one word, or none if it is empty.
pub proof fn lemma_one_word(s: Seq<char>)
    requires
        forall|k: int| 0 <= k < s.len() ==> !is_space(#[trigger] s[k]),
    ensures
        words_spec(s) == if s.len() > 0 {
            seq![s]
        } else {
            Seq::empty()
        },
{
    reveal(Seq::filter);
    assert forall|k: int| 0 <= k < s.len() implies !separates(Sep::Space, #[trigger] s[k]) by {
        assert(!is_space(s[k]));
    }
    lemma_one_piece(s, Sep::Space);
    let none = Seq::<Seq<char>>::empty();
    let one = seq![s];
    assert(one.drop_last() =~= none);
    assert(none.filter(|w: Seq<char>| w.len() > 0) =~= none);
    assert(one.last() == s);
    assert(none.push(s) =~= one);
}

/// White space has no words.
pub proof fn lemma_no_word(s: Seq<char>)
    requires
        forall|k: int| 0 <= k < s.len() ==> is_space(#[trigger] s[k]),
    ensures
        words_spec(s) == Seq::<Seq<char>>::empty(),
    decreases s.len(),
{
    if s.len() == 0 {
        lemma_one_word(s);
    } else {
        let head = s.drop_last();
        assert forall|k: int| 0 <= k < head.len() implies is_space(#[trigger] head[k]) by {
            assert(head[k] == s[k]);
        }
        lemma_no_word(head);
        assert(is_space(s[s.len() - 1]));
        lemma_words_parted(head, s.last(), Seq::empty());
        lemma_one_word(Seq::empty());
        assert(head.push(s.last()) + Seq::<char>::empty() =~= s);
        assert(words_spec(s) =~= Seq::<Seq<char>>::empty());
    }
}

/// No word is empty.
pub proof fn lemma_words_full(s: Seq<char>, i: int)
    requires
        0 <= i < words_spec(s).len(),
    ensures
        words_spec(s)[i].len() > 0,
{
    pieces(s, Sep::Space).lemma_filter_pred(|w: Seq<char>| w.len() > 0, i);
}

/// What stands before and after the first `" - "` of `s`.
pub open spec fn halves_spec(s: Seq<char>) -> Option<(Seq<char>, Seq<char>)> {
    match find_spec(s, " - "@) {
        Some(i) => Some((s.subrange(0, i), s.subrange(i + 3, s.len() as int))),
        None => None,
    }
}

/// A word: not empty, and without white space.
pub open spec fn is_word(w: Seq<char>) -> bool {
    w.len() > 0 && forall|k: int| 0 <= k < w.len() ==> !is_space(#[trigger] w[k])
}

/// Words with a space between each two.
pub open spec fn unwords(ws: Seq<Seq<char>>) -> Seq<char>
    decreases ws.len(),
{
    if ws.len() == 0 {
        seq![]
    } else if ws.len() == 1 {
        ws[0]
    } else {
        unwords(ws.drop_last()).push(' ') + ws.last()
    }
}

/// Words that were put together are found again.
pub proof fn law_words_read_back(ws: Seq<Seq<char>>)
    requires
        forall|i: int| 0 <= i < ws.len() ==> is_word(#[trigger] ws[i]),
    ensures
        words_spec(unwords(ws)) == ws,
    decreases ws.len(),
{
    if ws.len() == 0 {
        lemma_one_word(Seq::empty());
        assert(ws =~= Seq::<Seq<char>>::empty());
    } else {
        assert(is_word(ws[ws.len() - 1]));
        lemma_one_word(ws.last());
        if ws.len() == 1 {
            assert(ws =~= seq![ws[0]]);
        } else {
            let head = ws.drop_last();
            assert forall|i: int| 0 <= i < head.len() implies is_word(#[trigger] head[i]) by {
                assert(head[i] == ws[i]);
            }
            law_words_read_back(head);
            lemma_words_parted(unwords(head), ' ', ws.last());
            assert(head + seq![ws.last()] =~= ws);
        }
    }
}

proof fn lemma_unwords_dashless(ws: Seq<Seq<char>>, j: int)
    requires
        ws.len() > 0,
        forall|i: int| 0 <= i < ws.len() ==> is_word(#[trigger] ws[i]) && ws[i] != seq!['-'],
    ensures
        unwords(ws).len() > 0,
        !is_space(unwords(ws).last()),
        !occurs_at(unwords(ws).push(' '), " - "@, j),
    decreases ws.len(),
{
    reveal_strlit(" - ");
    let w = ws.last();
    let s = unwords(ws).push(' ');
    assert(is_word(ws[ws.len() - 1]));
    assert(!is_space(w[w.len() - 1]));
    let m: int = if ws.len() == 1 {
        -1
    } else {
        let head = ws.drop_last();
        assert forall|i: int| 0 <= i < head.len() implies is_word(#[trigger] head[i]) && head[i]
            != seq!['-'] by {
            assert(head[i] == ws[i]);
        }
        lemma_unwords_dashless(head, j);
        unwords(head).len() as int
    };
    assert(unwords(ws).last() == w.last());
    if occurs_at(s, " - "@, j) {
        let sub = s.subrange(j, j + 3);
        assert(sub[0] == s[j] && sub[1] == s[j + 1] && sub[2] == s[j + 2]);
        assert(" - "@[0] == ' ' && " - "@[1] == '-' && " - "@[2] == ' ');
        if j > m {
            // Inside the last word.
            assert(s[j] == w[j - m - 1]);
        } else if j == m {
            // The space before the last word.
            assert(s[m + 1] == w[0]);
            if w.len() == 1 {
                assert(w =~= seq!['-']);
            } else {
                assert(s[m + 2] == w[1]);
            }
        } else {
            let head = unwords(ws.drop_last());
            if j == m - 1 {
                assert(s[j] == head.last());
            } else {
                assert(head.push(' ').subrange(j, j + 3) =~= sub);
            }
        }
    }
}

/// Two lists of words with `" - "` between them are parted there, unless a word of the first is
/// a dash.
pub proof fn law_halves_read_back(l: Seq<Seq<char>>, r: Seq<char>)
    requires
        l.len() > 0,
        forall|i: int| 0 <= i < l.len() ==> is_word(#[trigger] l[i]) && l[i] != seq!['-'],
    ensures
        halves_spec(unwords(l) + " - "@ + r) == Some((unwords(l), r)),
{
    reveal_strlit(" - ");
    let a = unwords(l);
    let s = a + " - "@ + r;
    let at = a.len() as int;
    assert(s.subrange(at, at + 3) =~= " - "@);
    assert forall|j: int| 0 <= j < at implies !#[trigger] occurs_at(s, " - "@, j) by {
        lemma_unwords_dashless(l, j);
        if occurs_at(s, " - "@, j) {
            if j + 3 <= at + 1 {
                assert(a.push(' ').subrange(j, j + 3) =~= s.subrange(j, j + 3));
            } else {
                assert(s.subrange(j, j + 3)[0] == a.last());
            }
        }
    }
    lemma_find_first(s, " - "@, at);
    assert(s.subrange(0, at) =~= a);
    assert(s.subrange(at + 3, s.len() as int) =~= r);
}

/// Splits `s` round the first `" - "`.
pub fn halves<'a>(s: &'a str) -> (res: Option<(&'a str, &'a str)>)
    ensures
        match res {
            Some((l, r)) => halves_spec(s@) == Some((l@, r@)),
            None => halves_spec(s@) is None,
        },
{
    let cs: Vec<char> = chars_of(s);
    proof {
        reveal_strlit(" - ");
    }
    match find(&cs, " - ") {
        Some(i) => {
            let n: usize = cs.len();
            Some((s.substring_char(0, i), s.substring_char(i + 3, n)))
        },
        None => None,
    }
}

// ---------------------------------------------------------------------------------------
// Decimal numbers
// ---------------------------------------------------------------------------------------

/// The digit for a number under ten.
pub open spec fn digit(d: nat) -> char {
    (('0' as u8) + d) as char
}

/// `n` in decimal, without leading zeros.
pub open spec fn decimal_spec(n: nat) -> Seq<char>
    decreases n,
{
    if n < 10 {
        seq![digit(n)]
    } else {
        decimal_spec(n / 10).push(digit(n % 10))
    }
}

fn digit_text(d: u64) -> (r: &'static str)
    requires
        d < 10,
    ensures
        r@ == seq![digit(d as nat)],
{
    proof {
        reveal_strlit("0");
        reveal_strlit("1");
        reveal_strlit("2");
        reveal_strlit("3");
        reveal_strlit("4");
        reveal_strlit("5");
        reveal_strlit("6");
        reveal_strlit("7");
        reveal_strlit("8");
        reveal_strlit("9");
    }
    if d == 0 {
        "0"
    } else if d == 1 {
        "1"
    } else if d == 2 {
        "2"
    } else if d == 3 {
        "3"
    } else if d == 4 {
        "4"
    } else if d == 5 {
        "5"
    } else if d == 6 {
        "6"
    } else if d == 7 {
        "7"
    } else if d == 8 {
        "8"
    } else {
        "9"
    }
}

/// Writes `n` in decimal.
pub fn decimal(n: u64) -> (r: String)
    ensures
        r@ == decimal_spec(n as nat),
    decreases n,
{
    if n < 10 {
        digit_text(n).to_owned()
    } else {
        let mut r: String = decimal(n / 10);
        r.append(digit_text(n % 10));
        assert(r@ =~= decimal_spec(n as nat));
        r
    }
}

/// Whether `c` is an ASCII digit.
pub open spec fn is_digit(c: char) -> bool {
    '0' <= c <= '9'
}

/// The number that a sequence of digits writes.
pub open spec fn number(s: Seq<char>) -> nat
    decreases s.len(),
{
    if s.len() == 0 {
        0
    } else {
        number(s.drop_last()) * 10 + (s.last() as nat - '0' as nat) as nat
    }
}

/// `s` without a plus sign at its start.
pub open spec fn unsigned(s: Seq<char>) -> Seq<char> {
    if s.len() > 0 && s[0] == '+' {
        s.skip(1)
    } else {
        s
    }
}

/// The number that `s` writes: digits, at least one, after an optional plus sign, with a value
/// that fits 64 bits.
pub open spec fn parse_u64_spec(s: Seq<char>) -> Option<u64> {
    let ds = unsigned(s);
    if ds.len() > 0 && (forall|i: int| 0 <= i < ds.len() ==> is_digit(#[trigger] ds[i])) && number(
        ds,
    ) <= u64::MAX {
        Some(number(ds) as u64)
    } else {
        None
    }
}

proof fn lemma_number_prefix(s: Seq<char>, i: int)
    requires
        0 <= i <= s.len(),
    ensures
        number(s.take(i)) <= number(s),
    decreases s.len() - i,
{
    if i < s.len() {
        let longer = s.take(i + 1);
        assert(longer.drop_last() =~= s.take(i));
        lemma_number_prefix(s, i + 1);
    } else {
        assert(s.take(i) =~= s);
    }
}

/// Reads a decimal number.
pub fn parse_u64(s: &str) -> (res: Option<u64>)
    ensures
        res == parse_u64_spec(s@),
{
    let cs: Vec<char> = chars_of(s);
    let start: usize = if cs.len() > 0 && cs[0] == '+' {
        1
    } else {
        0
    };
    let ghost ds = unsigned(s@);
    assert(ds =~= s@.skip(start as int));
    if cs.len() == start {
        return None;
    }
    let mut n: u64 = 0;
    let mut i: usize = start;
    while i < cs.len()
        invariant
            cs@ == s@,
            start <= i <= cs.len(),
            start <= 1,
            ds == s@.skip(start as int),
            ds == unsigned(s@),
            n == number(ds.take(i - start)),
            forall|j: int| 0 <= j < i - start ==> is_digit(#[trigger] ds[j]),
        decreases cs.len() - i,
    {
        let c: char = cs[i];
        assert(ds[i - start] == c);
        if !('0' <= c && c <= '9') {
            return None;
        }
        let d: u64 = (c as u32 - '0' as u32) as u64;
        proof {
            let longer = ds.take(i - start + 1);
            assert(longer.drop_last() =~= ds.take(i - start));
            assert(number(longer) == n * 10 + d);
            lemma_number_prefix(ds, i - start + 1);
        }
        if n > (u64::MAX - d) / 10 {
            return None;
        }
        n = n * 10 + d;
        i += 1;
    }
    assert(ds.take(i - start) =~= ds);
    Some(n)
}

proof fn lemma_decimal(n: nat)
    ensures
        decimal_spec(n).len() > 0,
        forall|i: int| 0 <= i < decimal_spec(n).len() ==> is_digit(#[trigger] decimal_spec(n)[i]),
        number(decimal_spec(n)) == n,
    decreases n,
{
    reveal_with_fuel(number, 2);
    if n < 10 {
        let s = decimal_spec(n);
        assert(s.drop_last() =~= Seq::<char>::empty());
        assert(s.last() == digit(n));
    } else {
        lemma_decimal(n / 10);
        let head = decimal_spec(n / 10);
        let s = decimal_spec(n);
        assert(s.drop_last() =~= head);
        assert(s.last() == digit(n % 10));
    }
}

/// A number that was written in decimal is read back, with or without a plus sign.
pub proof fn law_decimal_read_back(n: u64)
    ensures
        parse_u64_spec(decimal_spec(n as nat)) == Some(n),
        parse_u64_spec(seq!['+'] + decimal_spec(n as nat)) == Some(n),
{
    lemma_decimal(n as nat);
    let s = decimal_spec(n as nat);
    assert(is_digit(s[0]));
    assert(unsigned(s) == s);
    assert((seq!['+'] + s).skip(1) =~= s);
}

/// A decimal number holds no white space.
pub proof fn lemma_decimal_plain(n: nat)
    ensures
        decimal_spec(n).len() > 0,
        forall|i: int| 0 <= i < decimal_spec(n).len() ==> !is_space(#[trigger] decimal_spec(n)[i]),
{
    lemma_decimal(n);
    assert forall|i: int| 0 <= i < decimal_spec(n).len() implies !is_space(
        #[trigger] decimal_spec(n)[i],
    ) by {
        assert(is_digit(decimal_spec(n)[i]));
    }
}

// ---------------------------------------------------------------------------------------
// Laws
// ---------------------------------------------------------------------------------------

proof fn lemma_find_some(s: Seq<char>, pat: Seq<char>, j: int)
    requires
        occurs_at(s, pat, j),
    ensures
        find_spec(s, pat) matches Some(i) && first_at(s, pat, i) && i <= j,
    decreases j,
{
    if exists|k: int| 0 <= k < j && occurs_at(s, pat, k) {
        let k = choose|k: int| 0 <= k < j && occurs_at(s, pat, k);
        lemma_find_some(s, pat, k);
    } else {
        assert(first_at(s, pat, j));
        lemma_find_first(s, pat, j);
    }
}

/// Wherever a pattern stands in a text, the search reports that place or an earlier one, and the
/// pattern stands at the place it reports.
pub proof fn law_search_finds(before: Seq<char>, pat: Seq<char>, after: Seq<char>)
    ensures
        find_spec(before + pat + after, pat) matches Some(i) && 0 <= i <= before.len() && (before
            + pat + after).subrange(i, i + pat.len()) == pat,
{
    let s = before + pat + after;
    assert(s.subrange(before.len() as int, (before.len() + pat.len()) as int) =~= pat);
    lemma_find_some(s, pat, before.len() as int);
}

/// The search reports nothing that is not there.
pub proof fn law_search_is_honest(s: Seq<char>, pat: Seq<char>)
    ensures
        find_spec(s, pat) matches Some(i) ==> 0 <= i && i + pat.len() <= s.len() && s == s.take(i)
            + pat + s.skip(i + pat.len()),
{
    if let Some(i) = find_spec(s, pat) {
        assert(first_at(s, pat, i));
        let whole = s.take(i) + pat + s.skip(i + pat.len());
        assert forall|k: int| 0 <= k < s.len() implies s[k] == whole[k] by {
            if i <= k < i + pat.len() {
                assert(s.subrange(i, i + pat.len())[k - i] == pat[k - i]);
            }
        }
        assert(s =~= whole);
    }
}

/// Paths are split at slashes, texts into lines at line feeds, and into words at white space.
pub proof fn law_separators(c: char)
    ensures
        separates(Sep::Slash, c) <==> c == '/',
        separates(Sep::LineFeed, c) <==> c == '\n',
        separates(Sep::Space, c) <==> is_space(c),
{
}

/// No character under U+0085 is white space but the five controls from tab to carriage return
/// and the space; and above it, only the spaces that Unicode lists.
pub proof fn law_white_space(c: char)
    ensures
        (c as int) < 0x85 ==> (is_space(c) <==> c == ' ' || c == '\t' || c == '\n' || c as int
            == 0x0b || c as int == 0x0c || c == '\r'),
        c as int >= 0x85 ==> (is_space(c) <==> (0x2000 <= c as int && c as int <= 0x200a)
            || seq![0x85int, 0xa0, 0x1680, 0x2028, 0x2029, 0x202f, 0x205f, 0x3000].contains(
            c as int,
        )),
{
    let others = seq![0x85int, 0xa0, 0x1680, 0x2028, 0x2029, 0x202f, 0x205f, 0x3000];
    assert(others[0] == 0x85 && others[1] == 0xa0 && others[2] == 0x1680 && others[3] == 0x2028
        && others[4] == 0x2029 && others[5] == 0x202f && others[6] == 0x205f && others[7]
        == 0x3000);
}

/// There is one piece more than there are separators.
pub proof fn law_pieces_count(s: Seq<char>, sep: Sep)
    ensures
        pieces(s, sep).len() == s.filter(|c: char| separates(sep, c)).len() + 1,
    decreases s.len(),
{
    reveal(Seq::filter);
    lemma_pieces_some(s, sep);
    if s.len() > 0 {
        law_pieces_count(s.drop_last(), sep);
        lemma_pieces_some(s.drop_last(), sep);
    }
}

proof fn lemma_lines_parted(piece: Seq<char>, rest: Seq<char>)
    requires
        forall|k: int| 0 <= k < piece.len() ==> #[trigger] piece[k] != '\n',
    ensures
        lines_spec(piece.push('\n') + rest) == seq![chomp(piece)] + lines_spec(rest),
{
    lemma_pieces_parted(piece, '\n', rest, Sep::LineFeed);
    lemma_one_piece(piece, Sep::LineFeed);
    lemma_pieces_some(rest, Sep::LineFeed);
    let all = pieces(piece.push('\n') + rest, Sep::LineFeed);
    let tail = pieces(rest, Sep::LineFeed);
    assert(all =~= seq![piece] + tail);
    assert(all.last() == tail.last());
    assert(lines_spec(piece.push('\n') + rest) =~= seq![chomp(piece)] + lines_spec(rest));
}

/// A line feed ends a line, and so do a carriage return and a line feed; what follows is split
/// by itself.
pub proof fn law_lines_parted(line: Seq<char>, rest: Seq<char>)
    requires
        forall|k: int| 0 <= k < line.len() ==> #[trigger] line[k] != '\n',
    ensures
        line.len() == 0 || line.last() != '\r' ==> lines_spec(line.push('\n') + rest) == seq![line]
            + lines_spec(rest),
        lines_spec(line.push('\r').push('\n') + rest) == seq![line] + lines_spec(rest),
{
    lemma_lines_parted(line, rest);
    let ended = line.push('\r');
    assert forall|k: int| 0 <= k < ended.len() implies #[trigger] ended[k] != '\n' by {
        if k < line.len() {
            assert(ended[k] == line[k]);
        }
    }
    lemma_lines_parted(ended, rest);
    assert(ended.drop_last() =~= line);
}

/// A text without line feeds is one line, or none if it is empty.
pub proof fn law_last_line(line: Seq<char>)
    requires
        forall|k: int| 0 <= k < line.len() ==> #[trigger] line[k] != '\n',
    ensures
        lines_spec(line) == if line.len() > 0 {
            seq![line]
        } else {
            Seq::empty()
        },
{
    lemma_one_piece(line, Sep::LineFeed);
    assert(lines_spec(line) =~= if line.len() > 0 {
        seq![line]
    } else {
        Seq::empty()
    });
}

/// Words are put together with one space between each two, and nothing before or after.
pub proof fn law_unwords_joins(a: Seq<Seq<char>>, b: Seq<Seq<char>>)
    requires
        a.len() > 0,
        b.len() > 0,
    ensures
        unwords(a + b) == unwords(a) + seq![' '] + unwords(b),
        a.len() == 1 ==> unwords(a) == a[0],
        unwords(Seq::empty()) == Seq::<char>::empty(),
    decreases b.len(),
{
    let all = a + b;
    assert(all.drop_last() =~= a + b.drop_last());
    assert(all.last() == b.last());
    if b.len() == 1 {
        assert(all.drop_last() =~= a);
        assert(unwords(all) =~= unwords(a) + seq![' '] + unwords(b));
    } else {
        law_unwords_joins(a, b.drop_last());
        assert(unwords(all) =~= unwords(a) + seq![' '] + unwords(b));
    }
}

/// Lines are put together with a line feed behind each.
pub proof fn law_unlines_joins(line: Seq<char>, rest: Seq<Seq<char>>)
    ensures
        unlines(seq![line] + rest) == line + seq!['\n'] + unlines(rest),
        unlines(Seq::empty()) == Seq::<char>::empty(),
{
    reveal_strlit("\n");
    assert("\n"@ =~= seq!['\n']);
    lemma_unlines_add(seq![line], rest);
    lemma_unlines_one(line);
}

/// The halves of a text, with `" - "` between them, make the text, and the first half ends where
/// `" - "` stands for the first time: it stands at no place `j` before.
pub proof fn law_halves_rejoin(s: Seq<char>, l: Seq<char>, r: Seq<char>, j: int)
    requires
        halves_spec(s) == Some((l, r)),
    ensures
        s == l + seq![' ', '-', ' '] + r,
        0 <= j < l.len() ==> s.subrange(j, j + 3) != seq![' ', '-', ' '],
{
    let dash = seq![' ', '-', ' '];
    lemma_dash();
    law_search_is_honest(s, dash);
    let i = find_spec(s, dash)->0;
    assert(first_at(s, dash, i));
    assert(s.take(i) =~= l);
    assert(s.skip(i + 3) =~= r);
    if 0 <= j < l.len() {
        assert(!occurs_at(s, dash, j));
    }
}

proof fn lemma_dash()
    ensures
        " - "@ == seq![' ', '-', ' '],
{
    reveal_strlit(" - ");
    assert(" - "@ =~= seq![' ', '-', ' ']);
}

/// A text that holds `" - "` has halves.
pub proof fn law_dash_makes_halves(l: Seq<char>, r: Seq<char>)
    ensures
        halves_spec(l + seq![' ', '-', ' '] + r) is Some,
{
    lemma_dash();
    law_search_finds(l, " - "@, r);
}

/// A number is written digit by digit: one more digit stands for ten times as much, and the
/// digit.
pub proof fn law_decimal_digits(n: nat, d: nat)
    requires
        d < 10,
    ensures
        decimal_spec(d).len() == 1 && decimal_spec(d)[0] as int == 0x30 + d,
        n > 0 ==> decimal_spec(10 * n + d) == decimal_spec(n) + decimal_spec(d),
{
    if n > 0 {
        assert((10 * n + d) / 10 == n && (10 * n + d) % 10 == d);
        assert(decimal_spec(10 * n + d) =~= decimal_spec(n) + decimal_spec(d));
    }
}

/// A number is read digit by digit: one more digit makes it ten times as large, and adds the
/// digit, as long as the number fits 64 bits. Any other character, and any other text, is no
/// number.
pub proof fn law_number_digits(s: Seq<char>, c: char)
    ensures
        parse_u64_spec(Seq::empty()) is None,
        parse_u64_spec(seq!['+']) is None,
        s.len() == 0 && c != '+' || s == seq!['+'] ==> parse_u64_spec(s.push(c)) == (if '0' <= c
            <= '9' {
            Some((c as int - 0x30) as u64)
        } else {
            None
        }),
        s.len() > 0 && s != seq!['+'] ==> parse_u64_spec(s.push(c)) == match parse_u64_spec(s) {
            Some(n) => if '0' <= c <= '9' && 10 * n + (c as int - 0x30) <= 0xffff_ffff_ffff_ffff {
                Some((10 * n + (c as int - 0x30)) as u64)
            } else {
                None
            },
            None => None,
        },
{
    let longer = s.push(c);
    let ds = unsigned(s);
    let dl = unsigned(longer);
    assert(unsigned(seq!['+']) =~= Seq::<char>::empty());
    if s.len() > 0 || c != '+' {
        if s.len() > 0 && s[0] == '+' {
            assert(longer[0] == '+');
            assert(dl =~= ds.push(c));
            if ds.len() == 0 {
                assert(s =~= seq!['+']);
            }
        } else {
            assert(dl =~= ds.push(c));
        }
        if s == seq!['+'] {
            assert(ds =~= Seq::<char>::empty());
        }
        assert(dl.drop_last() =~= ds);
        assert(dl.last() == c);
        assert forall|i: int| 0 <= i < ds.len() implies ds[i] == #[trigger] dl[i] by {}
        assert(number(dl) == number(ds) * 10 + (c as nat - '0' as nat) as nat);
        if ds.len() == 0 {
            assert(number(ds) == 0);
        }
        let all_s = forall|i: int| 0 <= i < ds.len() ==> is_digit(#[trigger] ds[i]);
        let all_l = forall|i: int| 0 <= i < dl.len() ==> is_digit(#[trigger] dl[i]);
        if all_l {
            assert forall|i: int| 0 <= i < ds.len() implies is_digit(#[trigger] ds[i]) by {
                assert(is_digit(dl[i]));
            }
            assert(is_digit(dl[ds.len() as int]));
        }
        if all_s && is_digit(c) {
            assert forall|i: int| 0 <= i < dl.len() implies is_digit(#[trigger] dl[i]) by {
                if i < ds.len() {
                    assert(is_digit(ds[i]));
                }
            }
        }
    }
}

/// The contents of a list are those of its strings, one by one.
pub proof fn law_contents(v: Seq<String>, w: Seq<&str>, i: int)
    requires
        0 <= i < v.len(),
        0 <= i < w.len(),
    ensures
        texts(v).len() == v.len() && texts(v)[i] == v[i]@,
        views(w).len() == w.len() && views(w)[i] == w[i]@,
{
}

} // verus!
