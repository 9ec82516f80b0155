//! Unix path text: components, prefixes and joining, as the standard library reads paths.

use vstd::prelude::*;
use vstd::string::*;

use crate::text;
use crate::text::{same, split, Sep};

verus! {

/// Whether a piece between slashes names something: it is not empty and not the current
/// directory.
pub open spec fn named(piece: Seq<char>) -> bool {
    piece.len() > 0 && piece != seq!['.']
}

/// What a path starts with before its first name: the root, the current directory, or nothing.
pub open spec fn lead(path: Seq<char>) -> Seq<Seq<char>> {
    if path.len() > 0 && path[0] == '/' {
        seq![seq!['/']]
    } else if text::pieces(path, Sep::Slash)[0] == seq!['.'] {
        seq![seq!['.']]
    } else {
        seq![]
    }
}

/// The names of a path: its pieces between slashes, without empty ones and `.`.
pub open spec fn names(ps: Seq<Seq<char>>) -> Seq<Seq<char>> {
    ps.filter(|piece: Seq<char>| named(piece))
}

/// The components of a path.
pub open spec fn components(path: Seq<char>) -> Seq<Seq<char>> {
    lead(path) + names(text::pieces(path, Sep::Slash))
}

/// Whether `base` leads to `path`, component by component.
pub open spec fn is_under(path: Seq<char>, base: Seq<char>) -> bool {
    components(base).is_prefix_of(components(path))
}

/// The pieces that follow the first `n` names.
pub open spec fn after_names(ps: Seq<Seq<char>>, n: nat) -> Seq<Seq<char>>
    decreases ps.len(),
{
    if n == 0 || ps.len() == 0 {
        ps
    } else if named(ps[0]) {
        after_names(ps.drop_first(), (n - 1) as nat)
    } else {
        after_names(ps.drop_first(), n)
    }
}

/// `ps` from its first name on.
pub open spec fn trim_front(ps: Seq<Seq<char>>) -> Seq<Seq<char>>
    decreases ps.len(),
{
    if ps.len() == 0 || named(ps[0]) {
        ps
    } else {
        trim_front(ps.drop_first())
    }
}

/// `ps` up to its last name.
pub open spec fn trim_back(ps: Seq<Seq<char>>) -> Seq<Seq<char>>
    decreases ps.len(),
{
    if ps.len() == 0 || named(ps.last()) {
        ps
    } else {
        trim_back(ps.drop_last())
    }
}

/// Pieces with a slash between each two.
pub open spec fn slashed(ps: Seq<Seq<char>>) -> Seq<char>
    decreases ps.len(),
{
    if ps.len() == 0 {
        seq![]
    } else if ps.len() == 1 {
        ps[0]
    } else {
        slashed(ps.drop_last()) + seq!['/'] + ps.last()
    }
}

/// The text of `path` past the components of `base`.
pub open spec fn past(path: Seq<char>, base: Seq<char>) -> Seq<char> {
    let n = (components(base).len() - lead(path).len()) as nat;
    slashed(trim_back(trim_front(after_names(text::pieces(path, Sep::Slash), n))))
}

/// `rel` under `base`: an absolute `rel` takes the place of `base`.
pub open spec fn join_spec(base: Seq<char>, rel: Seq<char>) -> Seq<char> {
    if rel.len() > 0 && rel[0] == '/' {
        rel
    } else if base.len() > 0 && base.last() != '/' {
        base + seq!['/'] + rel
    } else {
        base + rel
    }
}

/// Whether a piece names something.
fn is_named(piece: &str) -> (res: bool)
    ensures
        res == named(piece@),
{
    proof {
        reveal_strlit(".");
        assert("."@ =~= seq!['.']);
    }
    piece.unicode_len() > 0 && !same(piece, ".")
}

/// The root, the current directory, or nothing, that a path starts with.
fn lead_of<'a>(path: &'a str) -> (res: Option<&'a str>)
    ensures
        match res {
            Some(c) => lead(path@) == seq![c@],
            None => lead(path@) == Seq::<Seq<char>>::empty(),
        },
{
    proof {
        reveal_strlit("/");
        reveal_strlit(".");
        assert("/"@ =~= seq!['/']);
        assert("."@ =~= seq!['.']);
        text::lemma_pieces_some(path@, Sep::Slash);
    }
    if path.unicode_len() > 0 && path.get_char(0) == '/' {
        return Some("/");
    }
    let ps: Vec<&'a str> = split(path, Sep::Slash);
    assert(text::views(ps@).len() == ps@.len());
    assert(text::views(ps@)[0] == ps@[0]@);
    if same(ps[0], ".") {
        Some(".")
    } else {
        None
    }
}

/// Lists the components of a path.
pub fn components_of<'a>(path: &'a str) -> (v: Vec<&'a str>)
    ensures
        text::views(v@) == components(path@),
{
    let ps: Vec<&'a str> = split(path, Sep::Slash);
    let mut v: Vec<&'a str> = Vec::new();
    if let Some(c) = lead_of(path) {
        v.push(c);
    }
    let ghost start = lead(path@);
    let ghost ok = |piece: Seq<char>| named(piece);
    let mut i: usize = 0;
    proof {
        reveal(Seq::filter);
        assert(text::views(v@) =~= start);
        assert(text::views(ps@).take(0).filter(ok) =~= Seq::<Seq<char>>::empty());
        assert(text::views(v@) =~= start + text::views(ps@).take(0).filter(ok));
    }
    while i < ps.len()
        invariant
            i <= ps.len(),
            ok == (|piece: Seq<char>| named(piece)),
            text::views(v@) == start + text::views(ps@).take(i as int).filter(ok),
        decreases ps.len() - i,
    {
        let piece: &'a str = ps[i];
        let ghost before = text::views(v@);
        proof {
            reveal(Seq::filter);
            let longer = text::views(ps@).take(i + 1);
            assert(longer.drop_last() =~= text::views(ps@).take(i as int));
            assert(longer.last() == piece@);
        }
        if is_named(piece) {
            v.push(piece);
            proof {
                let shorter = text::views(ps@).take(i as int).filter(ok);
                assert(text::views(v@) =~= before.push(piece@));
                assert(before.push(piece@) =~= start + shorter.push(piece@));
            }
        }
        i += 1;
    }
    assert(text::views(ps@).take(i as int) =~= text::views(ps@));
    v
}

/// Whether `path` equals `base` or stands below it.
pub fn starts_with(path: &str, base: &str) -> (res: bool)
    ensures
        res == is_under(path@, base@),
{
    let p: Vec<&str> = components_of(path);
    let b: Vec<&str> = components_of(base);
    proof {
        assert(text::views(p@).len() == p@.len());
        assert(text::views(b@).len() == b@.len());
    }
    if b.len() > p.len() {
        return false;
    }
    let mut i: usize = 0;
    while i < b.len()
        invariant
            i <= b.len() <= p.len(),
            text::views(p@) == components(path@),
            text::views(b@) == components(base@),
            forall|j: int| 0 <= j < i ==> components(base@)[j] == components(path@)[j],
        decreases b.len() - i,
    {
        assert(components(base@)[i as int] == b@[i as int]@);
        assert(components(path@)[i as int] == p@[i as int]@);
        if !same(b[i], p[i]) {
            assert(!is_under(path@, base@)) by {
                if is_under(path@, base@) {
                    assert(components(path@).subrange(0, components(base@).len() as int)[i as int]
                        == components(base@)[i as int]);
                }
            }
            return false;
        }
        i += 1;
    }
    assert(components(base@) =~= components(path@).subrange(0, components(base@).len() as int));
    true
}

/// Whether two paths have the same components.
pub fn equal(a: &str, b: &str) -> (res: bool)
    ensures
        res == (components(a@) == components(b@)),
{
    let x: Vec<&str> = components_of(a);
    let y: Vec<&str> = components_of(b);
    proof {
        assert(text::views(x@).len() == x@.len());
        assert(text::views(y@).len() == y@.len());
    }
    if x.len() != y.len() {
        return false;
    }
    let mut i: usize = 0;
    while i < x.len()
        invariant
            i <= x.len() == y.len(),
            text::views(x@) == components(a@),
            text::views(y@) == components(b@),
            forall|j: int| 0 <= j < i ==> components(a@)[j] == components(b@)[j],
        decreases x.len() - i,
    {
        assert(components(a@)[i as int] == x@[i as int]@);
        assert(components(b@)[i as int] == y@[i as int]@);
        if !same(x[i], y[i]) {
            return false;
        }
        i += 1;
    }
    assert(components(a@) =~= components(b@));
    true
}

/// Pieces with a slash between each two, as a string.
fn join_pieces(ps: &Vec<&str>, from: usize, to: usize) -> (r: String)
    requires
        from <= to <= ps.len(),
    ensures
        r@ == slashed(text::views(ps@).subrange(from as int, to as int)),
{
    let mut r: String = String::new();
    let mut i: usize = from;
    let ghost all = text::views(ps@);
    proof {
        reveal_strlit("/");
        assert("/"@ =~= seq!['/']);
        assert(all.subrange(from as int, from as int) =~= Seq::<Seq<char>>::empty());
    }
    while i < to
        invariant
            from <= i <= to <= ps.len(),
            all == text::views(ps@),
            "/"@ == seq!['/'],
            r@ == slashed(all.subrange(from as int, i as int)),
        decreases to - i,
    {
        let ghost shorter = all.subrange(from as int, i as int);
        let ghost longer = all.subrange(from as int, i + 1);
        assert(longer.drop_last() =~= shorter);
        assert(longer.last() == ps@[i as int]@);
        if i > from {
            r.append("/");
        } else {
            assert(r@ + ps@[i as int]@ =~= longer[0]);
        }
        r.append(ps[i]);
        i += 1;
    }
    r
}

/// The part of `path` that stands below `base`.
pub fn strip(path: &str, base: &str) -> (r: String)
    requires
        base@.len() > 0,
        is_under(path@, base@),
    ensures
        r@ == past(path@, base@),
{
    let ps: Vec<&str> = split(path, Sep::Slash);
    let known: usize = components_of(base).len();
    proof {
        lemma_components_some(base@);
    }
    let mut left: usize = if lead_of(path).is_some() {
        known - 1
    } else {
        known
    };
    let ghost all = text::views(ps@);
    let ghost n = left as nat;
    let mut i: usize = 0;
    assert(all.skip(0) =~= all);
    while i < ps.len() && left > 0
        invariant
            i <= ps.len(),
            all == text::views(ps@),
            after_names(all, n) == after_names(all.skip(i as int), left as nat),
        decreases ps.len() - i,
    {
        assert(all.skip(i as int).drop_first() =~= all.skip(i + 1));
        assert(all.skip(i as int)[0] == ps@[i as int]@);
        if is_named(ps[i]) {
            left -= 1;
        }
        i += 1;
    }
    let ghost rest = after_names(all, n);
    assert(rest == all.skip(i as int));
    while i < ps.len() && !is_named(ps[i])
        invariant
            i <= ps.len(),
            all == text::views(ps@),
            trim_front(rest) == trim_front(all.skip(i as int)),
        decreases ps.len() - i,
    {
        assert(all.skip(i as int).drop_first() =~= all.skip(i + 1));
        i += 1;
    }
    let ghost front = trim_front(rest);
    assert(front == all.skip(i as int)) by {
        if i < ps.len() {
            assert(all.skip(i as int)[0] == ps@[i as int]@);
        }
    }
    let mut j: usize = ps.len();
    assert(all.skip(i as int) =~= all.subrange(i as int, j as int));
    while j > i && !is_named(ps[j - 1])
        invariant
            i <= j <= ps.len(),
            all == text::views(ps@),
            trim_back(front) == trim_back(all.subrange(i as int, j as int)),
        decreases j,
    {
        assert(all.subrange(i as int, j as int).drop_last() =~= all.subrange(i as int, j - 1));
        assert(all.subrange(i as int, j as int).last() == ps@[j - 1]@);
        j -= 1;
    }
    assert(trim_back(front) == all.subrange(i as int, j as int)) by {
        if j > i {
            assert(all.subrange(i as int, j as int).last() == ps@[j - 1]@);
        }
    }
    join_pieces(&ps, i, j)
}

/// Appends `rel` to `base`.
pub fn join(base: &str, rel: &str) -> (r: String)
    ensures
        r@ == join_spec(base@, rel@),
{
    proof {
        reveal_strlit("/");
        assert("/"@ =~= seq!['/']);
    }
    if rel.unicode_len() > 0 && rel.get_char(0) == '/' {
        return rel.to_owned();
    }
    let n: usize = base.unicode_len();
    let mut r: String = base.to_owned();
    if n > 0 && base.get_char(n - 1) != '/' {
        r.append("/");
    }
    r.append(rel);
    r
}

// ---------------------------------------------------------------------------------------
// Facts about pieces and names
// ---------------------------------------------------------------------------------------

/// No piece holds a slash.
pub open spec fn slash_free(ps: Seq<Seq<char>>) -> bool {
    forall|i: int, k: int| 0 <= i < ps.len() && 0 <= k < ps[i].len() ==> #[trigger] ps[i][k] != '/'
}

proof fn lemma_pieces_slash_free(s: Seq<char>)
    ensures
        slash_free(text::pieces(s, Sep::Slash)),
    decreases s.len(),
{
    if s.len() > 0 {
        lemma_pieces_slash_free(s.drop_last());
        text::lemma_pieces_some(s.drop_last(), Sep::Slash);
        let before = text::pieces(s.drop_last(), Sep::Slash);
        let ps = text::pieces(s, Sep::Slash);
        assert forall|i: int, k: int|
            0 <= i < ps.len() && 0 <= k < ps[i].len() implies #[trigger] ps[i][k] != '/' by {
            if i < before.len() && k < before[i].len() {
                assert(before[i][k] != '/');
            }
        }
    }
}

/// The first piece is empty exactly where the text is empty or starts with a slash.
proof fn lemma_first_piece(s: Seq<char>)
    requires
        s.len() > 0,
    ensures
        (s[0] == '/') == (text::pieces(s, Sep::Slash)[0].len() == 0),
    decreases s.len(),
{
    let before = text::pieces(s.drop_last(), Sep::Slash);
    text::lemma_pieces_some(s.drop_last(), Sep::Slash);
    if s.len() > 1 {
        lemma_first_piece(s.drop_last());
        assert(s.drop_last()[0] == s[0]);
        if before.len() == 1 && s.last() != '/' && s[0] == '/' {
            lemma_slash_parts(s.drop_last());
        }
    }
}

/// A text that starts with a slash has at least two pieces.
proof fn lemma_slash_parts(s: Seq<char>)
    requires
        s.len() > 0,
        s[0] == '/',
    ensures
        text::pieces(s, Sep::Slash).len() >= 2,
    decreases s.len(),
{
    text::lemma_pieces_some(s.drop_last(), Sep::Slash);
    if s.len() > 1 {
        assert(s.drop_last()[0] == s[0]);
        lemma_slash_parts(s.drop_last());
    }
}

/// Splitting undoes the joining of pieces.
proof fn lemma_pieces_slashed(ps: Seq<Seq<char>>)
    requires
        ps.len() > 0,
        slash_free(ps),
    ensures
        text::pieces(slashed(ps), Sep::Slash) == ps,
    decreases ps.len(),
{
    assert forall|k: int| 0 <= k < ps.last().len() implies ps.last()[k] != '/' by {
        assert(ps[ps.len() - 1][k] != '/');
    }
    text::lemma_one_piece(ps.last(), Sep::Slash);
    if ps.len() == 1 {
        assert(ps =~= seq![ps[0]]);
    } else {
        let head = ps.drop_last();
        assert forall|i: int, k: int|
            0 <= i < head.len() && 0 <= k < head[i].len() implies #[trigger] head[i][k] != '/' by {
            assert(ps[i][k] != '/');
        }
        lemma_pieces_slashed(head);
        text::lemma_pieces_parted(slashed(head), '/', ps.last(), Sep::Slash);
        assert(slashed(head) + seq!['/'] + ps.last() =~= slashed(head).push('/') + ps.last());
        assert(head + seq![ps.last()] =~= ps);
    }
}

proof fn lemma_names_add(a: Seq<Seq<char>>, b: Seq<Seq<char>>)
    ensures
        names(a + b) == names(a) + names(b),
{
    Seq::filter_distributes_over_add(a, b, |piece: Seq<char>| named(piece));
}

proof fn lemma_names_one(p: Seq<char>)
    ensures
        names(seq![p]) == if named(p) {
            seq![p]
        } else {
            Seq::empty()
        },
{
    reveal(Seq::filter);
    let none = Seq::<Seq<char>>::empty();
    let one = seq![p];
    assert(one.drop_last() =~= none);
    assert(names(none) =~= none);
    assert(one.last() == p);
    assert(none.push(p) =~= one);
}

proof fn lemma_names_first(ps: Seq<Seq<char>>)
    requires
        ps.len() > 0,
    ensures
        names(ps) == if named(ps[0]) {
            seq![ps[0]] + names(ps.drop_first())
        } else {
            names(ps.drop_first())
        },
{
    assert(ps =~= seq![ps[0]] + ps.drop_first());
    lemma_names_add(seq![ps[0]], ps.drop_first());
    lemma_names_one(ps[0]);
    assert(Seq::<Seq<char>>::empty() + names(ps.drop_first()) =~= names(ps.drop_first()));
}

proof fn lemma_names_last(ps: Seq<Seq<char>>)
    requires
        ps.len() > 0,
    ensures
        names(ps) == if named(ps.last()) {
            names(ps.drop_last()).push(ps.last())
        } else {
            names(ps.drop_last())
        },
{
    reveal(Seq::filter);
}

proof fn lemma_after_names(ps: Seq<Seq<char>>, n: nat)
    requires
        n <= names(ps).len(),
        slash_free(ps),
    ensures
        names(after_names(ps, n)) == names(ps).skip(n as int),
        slash_free(after_names(ps, n)),
    decreases ps.len(),
{
    if n == 0 {
        assert(names(ps).skip(0) =~= names(ps));
    } else if ps.len() == 0 {
        reveal(Seq::filter);
    } else {
        let tail = ps.drop_first();
        lemma_names_first(ps);
        lemma_tail_slash_free(ps);
        if named(ps[0]) {
            lemma_after_names(tail, (n - 1) as nat);
            assert(names(ps).skip(n as int) =~= names(tail).skip(n - 1));
        } else {
            lemma_after_names(tail, n);
        }
    }
}

proof fn lemma_tail_slash_free(ps: Seq<Seq<char>>)
    requires
        ps.len() > 0,
        slash_free(ps),
    ensures
        slash_free(ps.drop_first()),
        slash_free(ps.drop_last()),
{
    assert forall|i: int, k: int|
        0 <= i < ps.drop_first().len() && 0 <= k
            < ps.drop_first()[i].len() implies #[trigger] ps.drop_first()[i][k] != '/' by {
        assert(ps[i + 1][k] != '/');
    }
    assert forall|i: int, k: int|
        0 <= i < ps.drop_last().len() && 0 <= k
            < ps.drop_last()[i].len() implies #[trigger] ps.drop_last()[i][k] != '/' by {
        assert(ps[i][k] != '/');
    }
}

proof fn lemma_trim_front(ps: Seq<Seq<char>>)
    requires
        slash_free(ps),
    ensures
        names(trim_front(ps)) == names(ps),
        slash_free(trim_front(ps)),
        trim_front(ps).len() > 0 ==> named(trim_front(ps)[0]),
    decreases ps.len(),
{
    if ps.len() > 0 && !named(ps[0]) {
        lemma_names_first(ps);
        lemma_tail_slash_free(ps);
        lemma_trim_front(ps.drop_first());
    }
}

proof fn lemma_trim_back(ps: Seq<Seq<char>>)
    requires
        slash_free(ps),
        ps.len() > 0 ==> named(ps[0]),
    ensures
        names(trim_back(ps)) == names(ps),
        slash_free(trim_back(ps)),
        trim_back(ps).len() > 0 ==> named(trim_back(ps)[0]),
    decreases ps.len(),
{
    if ps.len() > 0 && !named(ps.last()) {
        lemma_names_last(ps);
        lemma_tail_slash_free(ps);
        lemma_trim_back(ps.drop_last());
    }
}

/// A path that is not empty has a component.
pub proof fn lemma_components_some(path: Seq<char>)
    requires
        path.len() > 0,
    ensures
        components(path).len() > 0,
{
    text::lemma_pieces_some(path, Sep::Slash);
    if path[0] != '/' {
        lemma_first_piece(path);
        lemma_names_first(text::pieces(path, Sep::Slash));
    }
}

/// The root has one component.
pub proof fn lemma_root_components()
    ensures
        components(seq!['/']) == seq![seq!['/']],
{
    let root = seq!['/'];
    let none = Seq::<char>::empty();
    assert(none.push('/') + none =~= root);
    text::lemma_pieces_parted(none, '/', none, Sep::Slash);
    lemma_names_one(none);
    lemma_names_add(seq![none], seq![none]);
    assert(text::pieces(root, Sep::Slash) =~= seq![none] + seq![none]);
    assert(components(root) =~= seq![seq!['/']]);
}

/// What stands below a prefix completes it: the components of the prefix, followed by those of
/// the rest, are the components of the path, and the rest is relative.
pub proof fn law_strip_completes(path: Seq<char>, base: Seq<char>)
    requires
        base.len() > 0,
        is_under(path, base),
    ensures
        components(base) + components(past(path, base)) == components(path),
        lead(past(path, base)) == Seq::<Seq<char>>::empty(),
{
    let ps = text::pieces(path, Sep::Slash);
    let k = components(base).len();
    let n = (k - lead(path).len()) as nat;
    lemma_components_some(base);
    lemma_pieces_slash_free(path);
    let rest = after_names(ps, n);
    lemma_after_names(ps, n);
    lemma_trim_front(rest);
    lemma_trim_back(trim_front(rest));
    let r = trim_back(trim_front(rest));
    let rel = past(path, base);
    assert(rel == slashed(r));
    if r.len() == 0 {
        lemma_names_one(Seq::empty());
        assert(names(r) =~= Seq::<Seq<char>>::empty()) by {
            reveal(Seq::filter);
        }
        assert(text::pieces(rel, Sep::Slash)[0].len() == 0);
        assert(components(rel) =~= Seq::<Seq<char>>::empty());
    } else {
        lemma_pieces_slashed(r);
        assert(text::pieces(rel, Sep::Slash)[0] == r[0]);
        if rel.len() == 0 {
            assert(text::pieces(rel, Sep::Slash)[0].len() == 0);
        }
        lemma_first_piece(rel);
        assert(lead(rel) =~= Seq::<Seq<char>>::empty());
        assert(components(rel) =~= names(r));
    }
    assert(components(rel) == names(ps).skip(n as int));
    assert(components(base) =~= components(path).subrange(0, k as int));
    assert(components(base) + components(rel) =~= components(path));
}

/// Joining adds components: a relative rest brings its components below those of the base.
pub proof fn law_join_adds(base: Seq<char>, rel: Seq<char>)
    requires
        base.len() > 0,
        lead(rel) == Seq::<Seq<char>>::empty(),
    ensures
        components(join_spec(base, rel)) == components(base) + components(rel),
{
    let whole = join_spec(base, rel);
    let pb = text::pieces(base, Sep::Slash);
    let pr = text::pieces(rel, Sep::Slash);
    if rel.len() > 0 && rel[0] == '/' {
        assert(lead(rel)[0] == seq!['/']);
    }
    assert(components(rel) =~= names(pr));
    text::lemma_pieces_some(base, Sep::Slash);
    if base.last() != '/' {
        assert(whole =~= base.push('/') + rel);
        text::lemma_pieces_parted(base, '/', rel, Sep::Slash);
        lemma_names_add(pb, pr);
        assert(whole[0] == base[0]);
        assert(components(whole) =~= components(base) + components(rel));
    } else {
        let b = base.drop_last();
        let p = text::pieces(b, Sep::Slash);
        text::lemma_pieces_some(b, Sep::Slash);
        assert(base =~= b.push('/'));
        assert(whole =~= b.push('/') + rel);
        text::lemma_pieces_parted(b, '/', rel, Sep::Slash);
        lemma_names_add(p, pr);
        lemma_names_last(pb);
        assert(pb.drop_last() =~= p);
        assert(whole[0] == base[0]);
        assert(components(whole) =~= components(base) + components(rel));
    }
}

// ---------------------------------------------------------------------------------------
// Laws of components and prefixes
// ---------------------------------------------------------------------------------------

/// A path without slashes is one component, or none if it is empty.
pub proof fn law_one_component(piece: Seq<char>)
    requires
        forall|k: int| 0 <= k < piece.len() ==> #[trigger] piece[k] != '/',
    ensures
        components(piece) == if piece.len() > 0 {
            seq![piece]
        } else {
            Seq::empty()
        },
{
    text::lemma_one_piece(piece, Sep::Slash);
    lemma_names_one(piece);
    assert(components(piece) =~= if piece.len() > 0 {
        seq![piece]
    } else {
        Seq::empty()
    });
}

/// What follows a slash is one more component, unless it is empty or a dot. A slash at the start
/// is a component too, the root.
pub proof fn law_next_component(above: Seq<char>, piece: Seq<char>)
    requires
        forall|k: int| 0 <= k < piece.len() ==> #[trigger] piece[k] != '/',
    ensures
        components(above.push('/') + piece) == (if above.len() > 0 {
            components(above)
        } else {
            seq![seq!['/']]
        }) + (if piece.len() == 0 || piece == seq!['.'] {
            Seq::empty()
        } else {
            seq![piece]
        }),
{
    let whole = above.push('/') + piece;
    let pa = text::pieces(above, Sep::Slash);
    text::lemma_pieces_parted(above, '/', piece, Sep::Slash);
    text::lemma_one_piece(piece, Sep::Slash);
    text::lemma_pieces_some(above, Sep::Slash);
    lemma_names_one(piece);
    lemma_names_add(pa, seq![piece]);
    if above.len() > 0 {
        assert(whole[0] == above[0]);
        assert(text::pieces(whole, Sep::Slash)[0] == pa[0]);
    } else {
        assert(whole[0] == '/');
        lemma_names_one(Seq::empty());
        assert(pa =~= seq![Seq::<char>::empty()]);
    }
    assert(components(whole) =~= (if above.len() > 0 {
        components(above)
    } else {
        seq![seq!['/']]
    }) + (if piece.len() == 0 || piece == seq!['.'] {
        Seq::empty()
    } else {
        seq![piece]
    }));
}

/// A path whose first components are those of a base lies under it, at every depth.
pub proof fn law_prefix_leads(path: Seq<char>, base: Seq<char>, rest: Seq<Seq<char>>)
    requires
        components(base) + rest == components(path),
    ensures
        is_under(path, base),
{
    assert(components(path).subrange(0, components(base).len() as int) =~= components(base));
}

/// A path that lies under a base starts with the components of the base.
pub proof fn law_under_shares_components(path: Seq<char>, base: Seq<char>, i: int)
    requires
        is_under(path, base),
        0 <= i < components(base).len(),
    ensures
        i < components(path).len(),
        components(path)[i] == components(base)[i],
{
    let n = components(base).len() as int;
    assert(components(path).subrange(0, n)[i] == components(base)[i]);
}

/// Whatever is written behind a base and a slash lies under the base.
pub proof fn law_below_is_under(base: Seq<char>, rest: Seq<char>)
    requires
        base.len() > 0,
    ensures
        is_under(base.push('/') + rest, base),
        is_under(base, base),
{
    let whole = base.push('/') + rest;
    let pb = text::pieces(base, Sep::Slash);
    text::lemma_pieces_parted(base, '/', rest, Sep::Slash);
    text::lemma_pieces_some(base, Sep::Slash);
    lemma_names_add(pb, text::pieces(rest, Sep::Slash));
    assert(whole[0] == base[0]);
    assert(text::pieces(whole, Sep::Slash)[0] == pb[0]);
    let below = names(text::pieces(rest, Sep::Slash));
    assert(components(base) + below =~= components(whole));
    law_prefix_leads(whole, base, below);
    law_prefix_leads(base, base, Seq::empty());
    assert(components(base) + Seq::<Seq<char>>::empty() =~= components(base));
}

/// Bases lie one under another: what lies under a path lies under whatever that path lies under.
pub proof fn law_under_is_transitive(path: Seq<char>, middle: Seq<char>, base: Seq<char>)
    requires
        is_under(path, middle),
        is_under(middle, base),
    ensures
        is_under(path, base),
{
    let m = components(middle).len() as int;
    let b = components(base).len() as int;
    assert(components(path).subrange(0, m).subrange(0, b) =~= components(path).subrange(0, b));
}

// ---------------------------------------------------------------------------------------
// Laws of the rest
// ---------------------------------------------------------------------------------------

/// Joining undoes splitting.
proof fn lemma_slashed_pieces(s: Seq<char>)
    ensures
        slashed(text::pieces(s, Sep::Slash)) == s,
    decreases s.len(),
{
    let ps = text::pieces(s, Sep::Slash);
    if s.len() == 0 {
        assert(slashed(ps) =~= s);
    } else {
        let before = text::pieces(s.drop_last(), Sep::Slash);
        lemma_slashed_pieces(s.drop_last());
        text::lemma_pieces_some(s.drop_last(), Sep::Slash);
        let shorter = s.drop_last();
        assert(s =~= shorter.push(s.last()));
        if s.last() == '/' {
            assert(ps.drop_last() =~= before);
            assert(slashed(ps) =~= s);
        } else {
            let c = s.last();
            assert(ps.drop_last() =~= before.drop_last());
            assert(ps.last() == before.last().push(c));
            if before.len() == 1 {
                assert(ps[0] == before[0].push(c));
            } else {
                let start = slashed(before.drop_last()) + seq!['/'];
                assert(start + before.last().push(c) =~= (start + before.last()).push(c));
            }
        }
    }
}

proof fn lemma_past_names(a: Seq<Seq<char>>, q: Seq<Seq<char>>)
    requires
        q.len() > 0 ==> named(q[0]),
    ensures
        trim_front(after_names(a + q, names(a).len())) == q,
    decreases a.len(),
{
    let all = a + q;
    if a.len() == 0 {
        reveal(Seq::filter);
        assert(all =~= q);
    } else {
        let tail = a.drop_first();
        lemma_names_first(a);
        assert(all.drop_first() =~= tail + q);
        assert(all[0] == a[0]);
        lemma_past_names(tail, q);
    }
}

proof fn lemma_trim_back_unnamed(q: Seq<Seq<char>>, j: Seq<Seq<char>>)
    requires
        q.len() > 0,
        named(q.last()),
        forall|i: int| 0 <= i < j.len() ==> !named(#[trigger] j[i]),
    ensures
        trim_back(q + j) == q,
    decreases j.len(),
{
    if j.len() == 0 {
        assert(q + j =~= q);
    } else {
        let head = j.drop_last();
        assert(!named(j[j.len() - 1]));
        assert forall|i: int| 0 <= i < head.len() implies !named(#[trigger] head[i]) by {
            assert(head[i] == j[i]);
        }
        assert((q + j).drop_last() =~= q + head);
        lemma_trim_back_unnamed(q, head);
    }
}

/// `rest` starts and ends with a name: its first and its last piece between slashes are neither
/// empty nor a dot.
pub open spec fn starts_and_ends_named(rest: Seq<char>) -> bool {
    let ps = text::pieces(rest, Sep::Slash);
    &&& ps[0].len() > 0 && ps[0] != seq!['.']
    &&& ps.last().len() > 0 && ps.last() != seq!['.']
}

/// A text that starts with a name does not start with a slash, and is not empty.
pub proof fn lemma_named_is_relative(rest: Seq<char>)
    requires
        starts_and_ends_named(rest),
    ensures
        rest.len() > 0,
        rest[0] != '/',
{
    if rest.len() > 0 {
        lemma_first_piece(rest);
    }
}

/// The part of a path below a base is the text behind the base, as it stands: from the first name
/// to the last, without the slashes before it, and without slashes and dots (`junk`) behind it.
pub proof fn law_rest_is_text_below(
    head: Seq<char>,
    rest: Seq<char>,
    junk: Seq<char>,
    base: Seq<char>,
)
    requires
        components(head) == components(base),
        head.len() > 0,
        head.last() == '/',
        starts_and_ends_named(rest),
        forall|i: int|
            0 <= i < text::pieces(junk, Sep::Slash).len() ==> (#[trigger] text::pieces(
                junk,
                Sep::Slash,
            )[i]).len() == 0 || text::pieces(junk, Sep::Slash)[i] == seq!['.'],
    ensures
        past(head + rest, base) == rest,
        past(head + rest.push('/') + junk, base) == rest,
{
    let h = head.drop_last();
    let a = text::pieces(h, Sep::Slash);
    let q = text::pieces(rest, Sep::Slash);
    let j = text::pieces(junk, Sep::Slash);
    let tail = rest.push('/') + junk;
    let qj = text::pieces(tail, Sep::Slash);
    assert(head =~= h.push('/'));
    text::lemma_pieces_some(h, Sep::Slash);
    text::lemma_pieces_some(rest, Sep::Slash);
    text::lemma_pieces_parted(h, '/', Seq::empty(), Sep::Slash);
    text::lemma_pieces_parted(h, '/', rest, Sep::Slash);
    text::lemma_pieces_parted(h, '/', tail, Sep::Slash);
    text::lemma_pieces_parted(rest, '/', junk, Sep::Slash);
    assert(head =~= h.push('/') + Seq::<char>::empty());
    let none = seq![Seq::<char>::empty()];
    assert(text::pieces(Seq::<char>::empty(), Sep::Slash) =~= none);
    lemma_names_one(Seq::empty());
    lemma_names_add(a, none);
    assert(names(a) + names(none) =~= names(a));
    let short = head + rest;
    let long = head + rest.push('/') + junk;
    assert(short =~= h.push('/') + rest);
    assert(long =~= h.push('/') + tail);
    assert(short[0] == head[0] && long[0] == head[0]);
    assert(text::pieces(head, Sep::Slash)[0] == a[0]);
    assert(text::pieces(short, Sep::Slash)[0] == a[0]);
    assert(text::pieces(long, Sep::Slash)[0] == a[0]);
    lemma_past_names(a, q);
    lemma_past_names(a, qj);
    assert forall|i: int| 0 <= i < j.len() implies !named(#[trigger] j[i]) by {}
    lemma_trim_back_unnamed(q, j);
    lemma_trim_back_unnamed(q, Seq::empty());
    assert(q + Seq::<Seq<char>>::empty() =~= q);
    lemma_slashed_pieces(rest);
}

/// Nothing of a path stands below a base with the same components.
pub proof fn law_nothing_below_itself(path: Seq<char>, base: Seq<char>)
    requires
        components(path) == components(base),
    ensures
        past(path, base) == Seq::<char>::empty(),
{
    let ps = text::pieces(path, Sep::Slash);
    lemma_past_names(ps, Seq::empty());
    assert(ps + Seq::<Seq<char>>::empty() =~= ps);
}

/// A joined path is the base, a slash where it has none at its end, and the relative rest.
pub proof fn law_join_text(base: Seq<char>, rel: Seq<char>)
    requires
        rel.len() == 0 || rel[0] != '/',
    ensures
        join_spec(base.push('/'), rel) == base.push('/') + rel,
        base.len() > 0 && base.last() != '/' ==> join_spec(base, rel) == base.push('/') + rel,
        join_spec(Seq::empty(), rel) == rel,
{
    assert(join_spec(Seq::empty(), rel) =~= rel);
    assert(base + seq!['/'] =~= base.push('/'));
}

/// An absolute rest takes the place of the base.
pub proof fn law_join_absolute(base: Seq<char>, rel: Seq<char>)
    requires
        rel.len() > 0,
        rel[0] == '/',
    ensures
        join_spec(base, rel) == rel,
{
}

} // verus!
