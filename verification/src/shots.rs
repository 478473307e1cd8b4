//! Shot names of a LIBS scan directory, and the data file names built on them.
//!
//! A scan directory holds one CSV file per shot. A file name is made of
//! `_`-separated fields; the first five fields (a sequential number, the date
//! and time of the first shot of a raster, ...) name the raster of shots, and
//! the shots of a raster are numbered 1 to 256 after that prefix.
use vstd::prelude::*;

verus! {

broadcast use vstd::string::group_string_axioms;

/// The characters of `s`, in order.
pub fn chars_of(s: &str) -> (r: Vec<char>)
    ensures
        r@ == s@,
{
    let mut out: Vec<char> = Vec::new();
    for c in it: s.chars()
        invariant
            it.seq() == s@,
            out@ == it.seq().take(it.index() as int),
    {
        out.push(c);
    }
    out
}

/// `String::push`: appends `c` at the end of `s`, as std documents it.
#[verifier::external_body]
fn push_char(s: &mut String, c: char)
    ensures
        final(s)@ == old(s)@.push(c),
{
    s.push(c);
}

/// The string made of the characters of `v`, in order.
pub fn string_of(v: &Vec<char>) -> (r: String)
    ensures
        r@ == v@,
{
    let mut s = String::new();
    let mut i: usize = 0;
    while i < v.len()
        invariant
            i <= v@.len(),
            s@ == v@.take(i as int),
        decreases v@.len() - i,
    {
        push_char(&mut s, v[i]);
        i = i + 1;
        assert(s@ =~= v@.take(i as int));
    }
    assert(v@.take(i as int) =~= v@);
    s
}

/// Puts `p` in front of a possibly missing sequence.
pub open spec fn prepend(p: Seq<char>, o: Option<Seq<char>>) -> Option<Seq<char>> {
    match o {
        Some(r) => Some(p + r),
        None => None,
    }
}

/// The first `k` fields of `s`, each followed by `_`, where fields are
/// separated by `_`; `None` when `s` has fewer than `k` fields.
pub open spec fn fields_prefix(s: Seq<char>, k: nat) -> Option<Seq<char>>
    decreases s.len(),
{
    if k == 0 {
        Some(Seq::empty())
    } else if s.len() == 0 {
        if k == 1 {
            Some(seq!['_'])
        } else {
            None
        }
    } else if s[0] == '_' {
        prepend(seq![s[0]], fields_prefix(s.drop_first(), (k - 1) as nat))
    } else {
        prepend(seq![s[0]], fields_prefix(s.drop_first(), k))
    }
}

/// The raster prefix of a file name: its first five fields, each followed by
/// `_`, when it has five fields and starts with `0`.
pub open spec fn shot_prefix(name: Seq<char>) -> Option<Seq<char>> {
    match fields_prefix(name, 5) {
        Some(p) => if p.len() > 0 && p[0] == '0' {
            Some(p)
        } else {
            None
        },
        None => None,
    }
}

proof fn lemma_prepend_prepend(a: Seq<char>, b: Seq<char>, o: Option<Seq<char>>)
    ensures
        prepend(a, prepend(b, o)) == prepend(a + b, o),
{
    if let Some(r) = o {
        assert(a + (b + r) =~= (a + b) + r);
    }
}

/// The raster prefix of one file name, if it has one.
pub fn shot_prefix_of(name: &Vec<char>) -> (r: Option<Vec<char>>)
    ensures
        match r {
            Some(p) => shot_prefix(name@) == Some(p@),
            None => shot_prefix(name@) is None,
        },
{
    let mut out: Vec<char> = Vec::new();
    let mut count: u64 = 0;
    let mut i: usize = 0;
    assert(name@.skip(0) =~= name@);
    assert(prepend(Seq::empty(), fields_prefix(name@, 5)) == fields_prefix(name@, 5)) by {
        if let Some(r) = fields_prefix(name@, 5) {
            assert(Seq::<char>::empty() + r =~= r);
        }
    }
    while i < name.len() && count < 5
        invariant
            i <= name@.len(),
            count <= 5,
            fields_prefix(name@, 5) == prepend(
                out@,
                fields_prefix(name@.skip(i as int), (5 - count) as nat),
            ),
            out@.len() == i,
            i > 0 ==> out@[0] == name@[0],
        decreases name@.len() - i,
    {
        let c = name[i];
        let ghost rest = name@.skip(i as int);
        let ghost k = (5 - count) as nat;
        proof {
            assert(rest[0] == c);
            assert(rest.drop_first() =~= name@.skip(i + 1));
            let k2: nat = if c == '_' {
                (k - 1) as nat
            } else {
                k
            };
            assert(fields_prefix(rest, k) == prepend(seq![c], fields_prefix(rest.drop_first(), k2)));
            lemma_prepend_prepend(out@, seq![c], fields_prefix(rest.drop_first(), k2));
            assert(out@ + seq![c] =~= out@.push(c));
        }
        out.push(c);
        if c == '_' {
            count = count + 1;
        }
        i = i + 1;
    }
    let ghost rest = name@.skip(i as int);
    if count == 5 {
        assert(fields_prefix(rest, 0) == Some(Seq::<char>::empty()));
        assert(out@ + Seq::<char>::empty() =~= out@);
    } else if count == 4 {
        assert(rest.len() == 0);
        assert(fields_prefix(rest, 1) == Some(seq!['_']));
        assert(out@ + seq!['_'] =~= out@.push('_'));
        out.push('_');
    } else {
        assert(rest.len() == 0);
        assert(fields_prefix(rest, (5 - count) as nat) is None);
        return None;
    }
    if out[0] == '0' {
        Some(out)
    } else {
        None
    }
}

/// Lexicographic order on character sequences, comparing characters by code
/// point; a proper prefix comes first. On strings it is the order of `str`.
pub open spec fn lex_lt(a: Seq<char>, b: Seq<char>) -> bool
    decreases a.len(),
{
    if b.len() == 0 {
        false
    } else if a.len() == 0 {
        true
    } else if a[0] != b[0] {
        (a[0] as int) < (b[0] as int)
    } else {
        lex_lt(a.drop_first(), b.drop_first())
    }
}

/// No sequence comes before itself.
pub proof fn lemma_lex_irreflexive(a: Seq<char>)
    ensures
        !lex_lt(a, a),
    decreases a.len(),
{
    if a.len() > 0 {
        lemma_lex_irreflexive(a.drop_first());
    }
}

/// The order is transitive.
pub proof fn lemma_lex_transitive(a: Seq<char>, b: Seq<char>, c: Seq<char>)
    requires
        lex_lt(a, b),
        lex_lt(b, c),
    ensures
        lex_lt(a, c),
    decreases a.len(),
{
    if a.len() > 0 && b.len() > 0 && c.len() > 0 && a[0] == b[0] && b[0] == c[0] {
        lemma_lex_transitive(a.drop_first(), b.drop_first(), c.drop_first());
    }
}

/// Any two different sequences are ordered one way or the other.
pub proof fn lemma_lex_total(a: Seq<char>, b: Seq<char>)
    ensures
        a == b || lex_lt(a, b) || lex_lt(b, a),
    decreases a.len(),
{
    if a.len() > 0 && b.len() > 0 && a[0] == b[0] {
        lemma_lex_total(a.drop_first(), b.drop_first());
        if a.drop_first() == b.drop_first() {
            assert(a =~= seq![a[0]] + a.drop_first());
            assert(b =~= seq![b[0]] + b.drop_first());
        }
    } else if a.len() == 0 && b.len() == 0 {
        assert(a =~= b);
    } else if a.len() > 0 && b.len() > 0 {
        assert((a[0] as int) != (b[0] as int));
    }
}

/// `a` and `b` agree on their first `i` characters, and there `a` ends
/// while `b` goes on, or `a` has the smaller character.
pub open spec fn first_difference_at(a: Seq<char>, b: Seq<char>, i: int) -> bool {
    &&& 0 <= i <= a.len()
    &&& i <= b.len()
    &&& forall|j: int| 0 <= j < i ==> #[trigger] a[j] == b[j]
    &&& (i == a.len() && i < b.len()) || (i < a.len() && i < b.len() && (a[i] as int) < (
        b[i] as int))
}

/// The order of `lex_lt` is the order of `str`, read from the front: `a`
/// comes before `b` exactly when, at the first position where they differ,
/// `a` has the smaller character, or `a` is a proper prefix of `b`.
pub proof fn lemma_lex_lt_is_first_difference(a: Seq<char>, b: Seq<char>)
    ensures
        lex_lt(a, b) <==> exists|i: int| #[trigger] first_difference_at(a, b, i),
    decreases a.len(),
{
    if a.len() > 0 && b.len() > 0 && a[0] == b[0] {
        let ta = a.drop_first();
        let tb = b.drop_first();
        lemma_lex_lt_is_first_difference(ta, tb);
        if lex_lt(a, b) {
            let i = choose|i: int| #[trigger] first_difference_at(ta, tb, i);
            assert forall|j: int| 0 <= j < i + 1 implies #[trigger] a[j] == b[j] by {
                if j > 0 {
                    assert(a[j] == ta[j - 1] && b[j] == tb[j - 1]);
                }
            }
            assert(first_difference_at(a, b, i + 1));
        }
        if exists|i: int| #[trigger] first_difference_at(a, b, i) {
            let i = choose|i: int| #[trigger] first_difference_at(a, b, i);
            if i == 0 {
                assert((a[0] as int) < (b[0] as int));
            } else {
                assert forall|j: int| 0 <= j < i - 1 implies #[trigger] ta[j] == tb[j] by {
                    assert(a[j + 1] == b[j + 1]);
                }
                assert(first_difference_at(ta, tb, i - 1));
            }
        }
    } else if a.len() == 0 {
        if b.len() > 0 {
            assert(first_difference_at(a, b, 0));
        }
    } else if b.len() == 0 {
    } else {
        if lex_lt(a, b) {
            assert(first_difference_at(a, b, 0));
        }
        if exists|i: int| #[trigger] first_difference_at(a, b, i) {
            let i = choose|i: int| #[trigger] first_difference_at(a, b, i);
            if i > 0 {
                assert(a[0] == b[0]);
            }
        }
    }
}

/// When the first characters differ, they decide the order.
pub proof fn lemma_lex_first_char_decides(a: Seq<char>, b: Seq<char>)
    requires
        a.len() > 0,
        b.len() > 0,
        a[0] != b[0],
    ensures
        lex_lt(a, b) <==> (a[0] as int) < (b[0] as int),
{
}

/// When the first characters agree, the rest decides the order.
pub proof fn lemma_lex_equal_first_char(a: Seq<char>, b: Seq<char>)
    requires
        a.len() > 0,
        b.len() > 0,
        a[0] == b[0],
    ensures
        lex_lt(a, b) == lex_lt(a.drop_first(), b.drop_first()),
{
}

/// A proper prefix comes first.
pub proof fn lemma_lex_proper_prefix(a: Seq<char>, b: Seq<char>)
    requires
        a.len() < b.len(),
        b.take(a.len() as int) == a,
    ensures
        lex_lt(a, b),
        !lex_lt(b, a),
{
    assert forall|j: int| 0 <= j < a.len() implies #[trigger] a[j] == b[j] by {
        assert(b.take(a.len() as int)[j] == b[j]);
    }
    assert(first_difference_at(a, b, a.len() as int));
    lemma_lex_lt_is_first_difference(a, b);
    if lex_lt(b, a) {
        lemma_lex_transitive(a, b, a);
        lemma_lex_irreflexive(a);
    }
}

/// `a` comes before `b` in the order of `lex_lt`.
pub fn lex_less(a: &Vec<char>, b: &Vec<char>) -> (r: bool)
    ensures
        r == lex_lt(a@, b@),
{
    let mut i: usize = 0;
    assert(a@.skip(0) =~= a@);
    assert(b@.skip(0) =~= b@);
    while i < a.len() && i < b.len()
        invariant
            i <= a@.len(),
            i <= b@.len(),
            lex_lt(a@, b@) == lex_lt(a@.skip(i as int), b@.skip(i as int)),
        decreases a@.len() - i,
    {
        let ghost sa = a@.skip(i as int);
        let ghost sb = b@.skip(i as int);
        assert(sa[0] == a@[i as int] && sb[0] == b@[i as int]);
        if a[i] != b[i] {
            return a[i] < b[i];
        }
        assert(sa.drop_first() =~= a@.skip(i + 1));
        assert(sb.drop_first() =~= b@.skip(i + 1));
        i = i + 1;
    }
    i < b.len()
}

/// `a` and `b` hold the same characters.
pub fn same_chars(a: &Vec<char>, b: &Vec<char>) -> (r: bool)
    ensures
        r == (a@ == b@),
{
    if a.len() != b.len() {
        return false;
    }
    let mut i: usize = 0;
    while i < a.len()
        invariant
            a@.len() == b@.len(),
            i <= a@.len(),
            forall|j: int| 0 <= j < i ==> a@[j] == b@[j],
        decreases a@.len() - i,
    {
        if a[i] != b[i] {
            return false;
        }
        i = i + 1;
    }
    assert(a@ =~= b@);
    true
}

/// The character sequences of a vector of character vectors.
pub open spec fn views(v: Seq<Vec<char>>) -> Seq<Seq<char>> {
    v.map_values(|x: Vec<char>| x@)
}

/// The character sequences of a vector of strings.
pub open spec fn string_views(v: Seq<String>) -> Seq<Seq<char>> {
    v.map_values(|x: String| x@)
}

/// Each sequence comes strictly before the next: sorted, with no repeats.
pub open spec fn strictly_sorted(s: Seq<Seq<char>>) -> bool {
    forall|a: int, b: int| 0 <= a < b < s.len() ==> lex_lt(#[trigger] s[a], #[trigger] s[b])
}

/// `p` is the raster prefix of one of the first `k` names.
pub open spec fn prefix_of_some(names: Seq<Seq<char>>, k: int, p: Seq<char>) -> bool {
    exists|i: int| 0 <= i < k && #[trigger] shot_prefix(names[i]) == Some(p)
}

/// Inserts `p` into the strictly sorted `acc`, unless it is there already.
fn insert_sorted(acc: &mut Vec<Vec<char>>, p: Vec<char>)
    requires
        strictly_sorted(views(old(acc)@)),
    ensures
        strictly_sorted(views(final(acc)@)),
        forall|q: Seq<char>|
            views(final(acc)@).contains(q) <==> (views(old(acc)@).contains(q) || q == p@),
{
    let ghost old_views = views(acc@);
    let mut i: usize = 0;
    while i < acc.len() && lex_less(&acc[i], &p)
        invariant
            acc@ == old(acc)@,
            old_views == views(acc@),
            i <= acc@.len(),
            forall|j: int| 0 <= j < i ==> lex_lt(#[trigger] old_views[j], p@),
        decreases acc@.len() - i,
    {
        assert(old_views[i as int] == acc@[i as int]@);
        i = i + 1;
    }
    if i < acc.len() && same_chars(&acc[i], &p) {
        assert(old_views[i as int] == p@);
        return;
    }
    proof {
        if i < acc@.len() {
            assert(old_views[i as int] == acc@[i as int]@);
            lemma_lex_total(old_views[i as int], p@);
        }
        assert forall|j: int| i <= j < old_views.len() implies lex_lt(p@, #[trigger] old_views[j]) by {
            if j > i {
                lemma_lex_transitive(p@, old_views[i as int], old_views[j]);
            }
        }
    }
    let ghost pv = p@;
    acc.insert(i, p);
    proof {
        let nv = views(acc@);
        assert(nv =~= old_views.insert(i as int, pv));
        assert forall|a: int, b: int| 0 <= a < b < nv.len() implies lex_lt(
            #[trigger] nv[a],
            #[trigger] nv[b],
        ) by {
            if b < i {
            } else if b == i {
            } else if a < i {
                lemma_lex_transitive(nv[a], pv, nv[b]);
            } else if a == i {
            } else {
                assert(nv[a] == old_views[a - 1] && nv[b] == old_views[b - 1]);
            }
        }
        assert forall|q: Seq<char>| nv.contains(q) <==> (old_views.contains(q) || q == pv) by {
            if nv.contains(q) {
                let a = choose|a: int| 0 <= a < nv.len() && nv[a] == q;
                if a < i {
                    assert(old_views[a] == q);
                } else if a > i {
                    assert(old_views[a - 1] == q);
                }
            }
            if old_views.contains(q) {
                let a = choose|a: int| 0 <= a < old_views.len() && old_views[a] == q;
                if a < i {
                    assert(nv[a] == q);
                } else {
                    assert(nv[a + 1] == q);
                }
            }
            if q == pv {
                assert(nv[i as int] == q);
            }
        }
    }
}

/// The raster prefixes of a scan directory, given the names of its entries:
/// the first five fields of every name that has five fields and starts with
/// `0`, each followed by `_`, in sorted order and without repeats.
pub fn get_shot_prefix(entry_names: &Vec<String>) -> (r: Vec<String>)
    ensures
        strictly_sorted(string_views(r@)),
        forall|p: Seq<char>|
            string_views(r@).contains(p) <==> prefix_of_some(
                string_views(entry_names@),
                entry_names@.len() as int,
                p,
            ),
{
    let ghost names = string_views(entry_names@);
    let mut acc: Vec<Vec<char>> = Vec::new();
    let mut k: usize = 0;
    while k < entry_names.len()
        invariant
            names == string_views(entry_names@),
            k <= entry_names@.len(),
            strictly_sorted(views(acc@)),
            forall|p: Seq<char>|
                views(acc@).contains(p) <==> prefix_of_some(names, k as int, p),
        decreases entry_names@.len() - k,
    {
        let name = chars_of(entry_names[k].as_str());
        assert(name@ == names[k as int]);
        let found = shot_prefix_of(&name);
        let ghost before = views(acc@);
        match found {
            Some(p) => {
                insert_sorted(&mut acc, p);
            },
            None => {},
        }
        proof {
            assert forall|p: Seq<char>|
                views(acc@).contains(p) <==> prefix_of_some(names, k + 1, p) by {
                if prefix_of_some(names, k + 1, p) {
                    let i = choose|i: int| 0 <= i < k + 1 && #[trigger] shot_prefix(names[i]) == Some(
                        p,
                    );
                    if i < k {
                        assert(prefix_of_some(names, k as int, p));
                    }
                }
                if prefix_of_some(names, k as int, p) {
                    let i = choose|i: int| 0 <= i < k && #[trigger] shot_prefix(names[i]) == Some(p);
                    assert(prefix_of_some(names, k + 1, p));
                }
                if views(acc@).contains(p) && !before.contains(p) {
                    assert(shot_prefix(names[k as int]) == Some(p));
                }
            }
        }
        k = k + 1;
    }
    let mut out: Vec<String> = Vec::new();
    let mut j: usize = 0;
    while j < acc.len()
        invariant
            j <= acc@.len(),
            string_views(out@) == views(acc@).take(j as int),
        decreases acc@.len() - j,
    {
        let s = string_of(&acc[j]);
        let ghost before = out@;
        assert(s@ == views(acc@)[j as int]);
        out.push(s);
        assert(string_views(out@) =~= string_views(before).push(s@));
        j = j + 1;
        assert(string_views(out@) =~= views(acc@).take(j as int));
    }
    assert(views(acc@).take(j as int) =~= views(acc@));
    out
}

/// The decimal digits.
pub const DIGITS: [char; 10] = ['0', '1', '2', '3', '4', '5', '6', '7', '8', '9'];

/// Shots per raster: a raster is a 16 by 16 grid of shots, numbered from 1.
pub const SHOTS_PER_RASTER: u32 = 256;

/// The decimal numeral of `n`, without leading zeros.
pub open spec fn decimal(n: nat) -> Seq<char>
    decreases n,
{
    if n < 10 {
        seq![DIGITS@[n as int]]
    } else {
        decimal(n / 10).push(DIGITS@[(n % 10) as int])
    }
}

fn push_decimal(s: &mut String, n: u32)
    ensures
        final(s)@ == old(s)@ + decimal(n as nat),
    decreases n,
{
    if n >= 10 {
        push_decimal(s, n / 10);
    }
    push_char(s, DIGITS[(n % 10) as usize]);
    assert(final(s)@ =~= old(s)@ + decimal(n as nat)) by {
        if n < 10 {
            assert(n % 10 == n);
        }
    }
}

/// The name of the data file of shot `shot` of the raster `prefix` in the
/// directory `fileroot`: `{fileroot}/{prefix}{shot}.csv`.
pub open spec fn data_filename(fileroot: Seq<char>, prefix: Seq<char>, shot: nat) -> Seq<char> {
    fileroot + seq!['/'] + prefix + decimal(shot) + seq!['.', 'c', 's', 'v']
}

/// The data file names of the shots 1 to 256 of one raster.
pub open spec fn raster_filenames(fileroot: Seq<char>, prefix: Seq<char>) -> Seq<Seq<char>> {
    Seq::new(SHOTS_PER_RASTER as nat, |i: int| data_filename(fileroot, prefix, (i + 1) as nat))
}

/// The data file names of every shot of every raster, raster by raster.
pub open spec fn candidate_filenames(fileroot: Seq<char>, prefixes: Seq<Seq<char>>) -> Seq<
    Seq<char>,
>
    decreases prefixes.len(),
{
    if prefixes.len() == 0 {
        Seq::empty()
    } else {
        candidate_filenames(fileroot, prefixes.drop_last()) + raster_filenames(
            fileroot,
            prefixes.last(),
        )
    }
}

/// The elements of `items` whose flag is set, in order.
pub open spec fn selected(items: Seq<Seq<char>>, flags: Seq<bool>) -> Seq<Seq<char>>
    decreases items.len(),
{
    if items.len() == 0 {
        Seq::empty()
    } else if flags[items.len() - 1] {
        selected(items.drop_last(), flags).push(items.last())
    } else {
        selected(items.drop_last(), flags)
    }
}

fn data_filename_of(fileroot: &str, prefix: &String, shot: u32) -> (r: String)
    ensures
        r@ == data_filename(fileroot@, prefix@, shot as nat),
{
    let mut s = String::new();
    s.append(fileroot);
    push_char(&mut s, '/');
    s.append(prefix.as_str());
    push_decimal(&mut s, shot);
    push_char(&mut s, '.');
    push_char(&mut s, 'c');
    push_char(&mut s, 's');
    push_char(&mut s, 'v');
    assert(s@ =~= data_filename(fileroot@, prefix@, shot as nat));
    s
}

/// Every data file name that the rasters `shot_prefix` can have in the
/// directory `fileroot`: for each raster in turn, the shots 1 to 256.
pub fn data_filename_candidates(fileroot: &str, shot_prefix: &Vec<String>) -> (r: Vec<String>)
    ensures
        string_views(r@) == candidate_filenames(fileroot@, string_views(shot_prefix@)),
{
    let ghost root = fileroot@;
    let ghost prefixes = string_views(shot_prefix@);
    let mut out: Vec<String> = Vec::new();
    let mut p: usize = 0;
    while p < shot_prefix.len()
        invariant
            root == fileroot@,
            prefixes == string_views(shot_prefix@),
            p <= shot_prefix@.len(),
            string_views(out@) == candidate_filenames(root, prefixes.take(p as int)),
        decreases shot_prefix@.len() - p,
    {
        let shot = &shot_prefix[p];
        let ghost start = string_views(out@);
        let mut suffix: u32 = 1;
        while suffix <= SHOTS_PER_RASTER
            invariant
                root == fileroot@,
                prefixes == string_views(shot_prefix@),
                p < shot_prefix@.len(),
                shot@ == prefixes[p as int],
                1 <= suffix <= SHOTS_PER_RASTER + 1,
                string_views(out@) == start + raster_filenames(root, prefixes[p as int]).take(
                    suffix - 1,
                ),
            decreases SHOTS_PER_RASTER + 1 - suffix,
        {
            let name = data_filename_of(fileroot, shot, suffix);
            let ghost before = out@;
            out.push(name);
            assert(string_views(out@) =~= string_views(before).push(name@));
            assert(raster_filenames(root, prefixes[p as int])[suffix - 1] == name@);
            assert(string_views(out@) =~= start + raster_filenames(root, prefixes[p as int]).take(
                suffix as int,
            ));
            suffix = suffix + 1;
        }
        proof {
            let tp = prefixes.take(p + 1);
            assert(tp.drop_last() =~= prefixes.take(p as int));
            assert(tp.last() == prefixes[p as int]);
            assert(raster_filenames(root, prefixes[p as int]).take(SHOTS_PER_RASTER as int)
                =~= raster_filenames(root, prefixes[p as int]));
        }
        p = p + 1;
    }
    assert(prefixes.take(p as int) =~= prefixes);
    out
}

/// `std::path::Path::exists`: whether something is on disk at `path`. The
/// answer depends on the file system at the time of the call, so nothing is
/// stated of it.
#[verifier::external_body]
fn path_exists(path: &String) -> bool {
    std::path::Path::new(path.as_str()).exists()
}

/// The candidates whose existence answer is `true`, in order.
pub fn select_existing(candidates: &Vec<String>, exists: &Vec<bool>) -> (r: Vec<String>)
    requires
        exists@.len() == candidates@.len(),
    ensures
        string_views(r@) == selected(string_views(candidates@), exists@),
{
    let ghost cands = string_views(candidates@);
    let mut filenames: Vec<String> = Vec::new();
    let mut i: usize = 0;
    while i < candidates.len()
        invariant
            cands == string_views(candidates@),
            exists@.len() == candidates@.len(),
            i <= candidates@.len(),
            string_views(filenames@) == selected(cands.take(i as int), exists@),
        decreases candidates@.len() - i,
    {
        let ghost before = string_views(filenames@);
        if exists[i] {
            filenames.push(candidates[i].clone());
        }
        proof {
            let t = cands.take(i + 1);
            assert(t.drop_last() =~= cands.take(i as int));
            assert(t.last() == cands[i as int]);
            if exists@[i as int] {
                assert(string_views(filenames@) =~= before.push(cands[i as int]));
            } else {
                assert(string_views(filenames@) =~= before);
            }
        }
        i = i + 1;
    }
    assert(cands.take(i as int) =~= cands);
    filenames
}

/// The data files of a scan directory, given the directory and the names of
/// its entries: every data file name of every raster (rasters in sorted
/// order, shots 1 to 256 within a raster) for which the file system answers
/// that a file exists. The answers are asked in candidate order, one per
/// candidate, and handed to `select_existing`.
pub fn get_directory_of_data_filenames(fileroot: &str, entry_names: &Vec<String>) -> (r: Vec<String>)
    ensures
        exists|prefixes: Seq<Seq<char>>, found: Seq<bool>|
            {
                &&& strictly_sorted(prefixes)
                &&& forall|p: Seq<char>|
                    prefixes.contains(p) <==> prefix_of_some(
                        string_views(entry_names@),
                        entry_names@.len() as int,
                        p,
                    )
                &&& found.len() == candidate_filenames(fileroot@, prefixes).len()
                &&& string_views(r@) == selected(candidate_filenames(fileroot@, prefixes), found)
            },
{
    let shot_prefix = get_shot_prefix(entry_names);
    let candidates = data_filename_candidates(fileroot, &shot_prefix);
    let mut exists: Vec<bool> = Vec::new();
    let mut i: usize = 0;
    while i < candidates.len()
        invariant
            i <= candidates@.len(),
            exists@.len() == i,
        decreases candidates@.len() - i,
    {
        exists.push(path_exists(&candidates[i]));
        i = i + 1;
    }
    select_existing(&candidates, &exists)
}

/// The number of `_` characters in `s`.
pub open spec fn underscores(s: Seq<char>) -> nat
    decreases s.len(),
{
    if s.len() == 0 {
        0
    } else {
        underscores(s.drop_first()) + if s[0] == '_' {
            1nat
        } else {
            0nat
        }
    }
}

proof fn lemma_fields_prefix_shape(s: Seq<char>, k: nat)
    ensures
        fields_prefix(s, k) matches Some(p) ==> {
            &&& underscores(p) == k
            &&& k > 0 ==> p.len() > 0 && p.last() == '_'
            &&& (p.len() <= s.len() && s.take(p.len() as int) == p) || p == s.push('_')
        },
    decreases s.len(),
{
    if k == 0 {
        assert(s.take(0) =~= Seq::<char>::empty());
        assert(underscores(Seq::<char>::empty()) == 0);
    } else if s.len() == 0 {
        if k == 1 {
            let p = seq!['_'];
            assert(p.drop_first() =~= Seq::<char>::empty());
            assert(underscores(p.drop_first()) == 0);
            assert(underscores(p) == 1);
            assert(p =~= s.push('_'));
            assert(fields_prefix(s, k) == Some(p));
        }
    } else {
        let k2: nat = if s[0] == '_' {
            (k - 1) as nat
        } else {
            k
        };
        let rest = s.drop_first();
        lemma_fields_prefix_shape(rest, k2);
        if let Some(q) = fields_prefix(rest, k2) {
            let p = seq![s[0]] + q;
            assert(p.drop_first() =~= q);
            assert(p[0] == s[0]);
            assert(fields_prefix(s, k) == Some(p));
            assert(underscores(p) == k);
            if q.len() > 0 {
                assert(p.last() == q.last());
            } else {
                assert(k2 == 0);
                assert(underscores(q) == 0);
                assert(s[0] == '_');
            }
            if q.len() <= rest.len() && rest.take(q.len() as int) == q {
                assert(s.take(p.len() as int) =~= p);
            } else {
                assert(p =~= s.push('_'));
            }
        }
    }
}

/// A raster prefix found in a file name starts with `0`, ends with `_`, and
/// holds exactly five `_`-terminated fields; it is the start of the name, or
/// the whole name followed by `_` when the name has exactly five fields.
pub proof fn lemma_shot_prefix_shape(name: Seq<char>)
    ensures
        shot_prefix(name) matches Some(p) ==> {
            &&& p[0] == '0'
            &&& p.last() == '_'
            &&& underscores(p) == 5
            &&& (p.len() <= name.len() && name.take(p.len() as int) == p) || p == name.push('_')
        },
{
    lemma_fields_prefix_shape(name, 5);
}

} // verus!
