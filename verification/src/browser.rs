//! The in-app file browser: a folder's entries listed folders first, then
//! files, each group by name; and the set of checked paths, which stays as the
//! user moves between folders until the checked paths are added as sources.
use vstd::prelude::*;
use crate::paths::{
    copy_paths, find_key, keys_distinct, lemma_path_views_push, listed, path_view, path_views,
    with_path, SourcePath,
};

verus! {

/// One entry of a folder: its name's bytes, whether it is a folder, and its
/// full path.
pub struct BrowseEntry {
    pub name: Vec<u8>,
    pub is_dir: bool,
    pub path: SourcePath,
}

/// Byte strings in dictionary order: compared byte by byte, a proper prefix
/// first.
pub open spec fn bytes_le(a: Seq<u8>, b: Seq<u8>) -> bool
    decreases a.len(),
{
    if a.len() == 0 {
        true
    } else if b.len() == 0 {
        false
    } else if a[0] != b[0] {
        a[0] < b[0]
    } else {
        bytes_le(a.drop_first(), b.drop_first())
    }
}

/// The listing order: folders before files, then by name.
pub open spec fn entry_le(a: BrowseEntry, b: BrowseEntry) -> bool {
    if a.is_dir != b.is_dir {
        a.is_dir
    } else {
        bytes_le(a.name@, b.name@)
    }
}

/// The entries are in listing order.
pub open spec fn listing_sorted(s: Seq<BrowseEntry>) -> bool {
    forall|i: int, j: int| 0 <= i < j < s.len() ==> entry_le(#[trigger] s[i], #[trigger] s[j])
}

proof fn lemma_bytes_le_total(a: Seq<u8>, b: Seq<u8>)
    ensures
        bytes_le(a, b) || bytes_le(b, a),
    decreases a.len(),
{
    if a.len() > 0 && b.len() > 0 && a[0] == b[0] {
        lemma_bytes_le_total(a.drop_first(), b.drop_first());
    }
}

proof fn lemma_bytes_le_trans(a: Seq<u8>, b: Seq<u8>, c: Seq<u8>)
    requires
        bytes_le(a, b),
        bytes_le(b, c),
    ensures
        bytes_le(a, c),
    decreases a.len(),
{
    if a.len() > 0 && b.len() > 0 && c.len() > 0 && a[0] == b[0] && b[0] == c[0] {
        lemma_bytes_le_trans(a.drop_first(), b.drop_first(), c.drop_first());
    }
}

/// The listing order is total and transitive.
pub proof fn lemma_entry_order(a: BrowseEntry, b: BrowseEntry, c: BrowseEntry)
    ensures
        entry_le(a, b) || entry_le(b, a),
        entry_le(a, b) && entry_le(b, c) ==> entry_le(a, c),
{
    lemma_bytes_le_total(a.name@, b.name@);
    if entry_le(a, b) && entry_le(b, c) && a.is_dir == b.is_dir && b.is_dir == c.is_dir {
        lemma_bytes_le_trans(a.name@, b.name@, c.name@);
    }
}

/// `a` comes strictly before `b` in dictionary order: it is a proper prefix
/// of `b`, or at the first position where they differ its byte is smaller.
pub open spec fn dictionary_before(a: Seq<u8>, b: Seq<u8>) -> bool {
    ||| (a.len() < b.len() && b.take(a.len() as int) == a)
    ||| exists|i: int|
        0 <= i < a.len() && i < b.len() && a.take(i) == b.take(i) && #[trigger] a[i] < #[trigger] b[i]
}

/// Names are compared in dictionary order: `a` comes no later than `b`
/// exactly when the two are equal or `a` comes strictly before `b`.
pub proof fn law_name_order_is_dictionary(a: Seq<u8>, b: Seq<u8>)
    ensures
        bytes_le(a, b) <==> (a == b || dictionary_before(a, b)),
    decreases a.len(),
{
    if a.len() == 0 {
        if b.len() > 0 {
            assert(b.take(0) =~= a);
        } else {
            assert(a =~= b);
        }
    } else if b.len() == 0 {
        if dictionary_before(a, b) {
            let i = choose|i: int|
                0 <= i < a.len() && i < b.len() && a.take(i) == b.take(i) && #[trigger] a[i]
                    < #[trigger] b[i];
        }
    } else if a[0] != b[0] {
        if a[0] < b[0] {
            assert(a.take(0) =~= b.take(0));
            assert(a[0] < b[0]);
        } else {
            if a.len() < b.len() && b.take(a.len() as int) == a {
                assert(b.take(a.len() as int)[0] == a[0]);
            }
            if exists|i: int|
                0 <= i < a.len() && i < b.len() && a.take(i) == b.take(i) && #[trigger] a[i]
                    < #[trigger] b[i] {
                let i = choose|i: int|
                    0 <= i < a.len() && i < b.len() && a.take(i) == b.take(i) && #[trigger] a[i]
                        < #[trigger] b[i];
                if i > 0 {
                    assert(a.take(i)[0] == b.take(i)[0]);
                }
            }
        }
    } else {
        let a1 = a.drop_first();
        let b1 = b.drop_first();
        law_name_order_is_dictionary(a1, b1);
        // equality carries over
        assert(a == b <==> a1 == b1) by {
            if a1 == b1 {
                assert forall|k: int| 0 <= k < a.len() implies a[k] == b[k] by {
                    if k > 0 {
                        assert(a[k] == a1[k - 1]);
                        assert(b[k] == b1[k - 1]);
                    }
                }
                assert(a =~= b);
            }
        }
        // proper prefix carries over
        assert((a.len() < b.len() && b.take(a.len() as int) == a) <==> (a1.len() < b1.len()
            && b1.take(a1.len() as int) == a1)) by {
            if a1.len() < b1.len() && b1.take(a1.len() as int) == a1 {
                assert forall|k: int| 0 <= k < a.len() implies b[k] == a[k] by {
                    if k > 0 {
                        assert(b1.take(a1.len() as int)[k - 1] == a1[k - 1]);
                        assert(a[k] == a1[k - 1]);
                        assert(b[k] == b1[k - 1]);
                    }
                }
                assert(b.take(a.len() as int) =~= a);
            }
            if a.len() < b.len() && b.take(a.len() as int) == a {
                assert(b1.take(a1.len() as int) =~= a1);
            }
        }
        // a first difference carries over, one position further
        assert((exists|i: int|
            0 <= i < a.len() && i < b.len() && a.take(i) == b.take(i) && #[trigger] a[i]
                < #[trigger] b[i]) <==> (exists|i: int|
            0 <= i < a1.len() && i < b1.len() && a1.take(i) == b1.take(i) && #[trigger] a1[i]
                < #[trigger] b1[i])) by {
            if exists|i: int|
                0 <= i < a.len() && i < b.len() && a.take(i) == b.take(i) && #[trigger] a[i]
                    < #[trigger] b[i] {
                let i = choose|i: int|
                    0 <= i < a.len() && i < b.len() && a.take(i) == b.take(i) && #[trigger] a[i]
                        < #[trigger] b[i];
                assert(i > 0);
                assert(a1.take(i - 1) =~= a.take(i).drop_first());
                assert(b1.take(i - 1) =~= b.take(i).drop_first());
                assert(a1[i - 1] == a[i] && b1[i - 1] == b[i]);
            }
            if exists|i: int|
                0 <= i < a1.len() && i < b1.len() && a1.take(i) == b1.take(i) && #[trigger] a1[i]
                    < #[trigger] b1[i] {
                let i = choose|i: int|
                    0 <= i < a1.len() && i < b1.len() && a1.take(i) == b1.take(i)
                        && #[trigger] a1[i] < #[trigger] b1[i];
                assert(a.take(i + 1) =~= seq![a[0]] + a1.take(i));
                assert(b.take(i + 1) =~= seq![b[0]] + b1.take(i));
                assert(a[i + 1] == a1[i] && b[i + 1] == b1[i]);
            }
        }
    }
}

/// Whether `a` comes no later than `b` in dictionary order.
pub fn bytes_le_exec(a: &Vec<u8>, b: &Vec<u8>) -> (r: bool)
    ensures
        r == bytes_le(a@, b@),
{
    let mut i: usize = 0;
    assert(a@.skip(0) =~= a@);
    assert(b@.skip(0) =~= b@);
    loop
        invariant
            i <= a.len(),
            i <= b.len(),
            bytes_le(a@, b@) == bytes_le(a@.skip(i as int), b@.skip(i as int)),
        decreases a.len() - i,
    {
        if i == a.len() {
            return true;
        }
        if i == b.len() {
            return false;
        }
        if a[i] != b[i] {
            return a[i] < b[i];
        }
        assert(a@.skip(i as int).drop_first() =~= a@.skip(i + 1));
        assert(b@.skip(i as int).drop_first() =~= b@.skip(i + 1));
        i = i + 1;
    }
}

/// Whether `a` comes no later than `b` in the listing.
pub fn entry_le_exec(a: &BrowseEntry, b: &BrowseEntry) -> (r: bool)
    ensures
        r == entry_le(*a, *b),
{
    if a.is_dir != b.is_dir {
        a.is_dir
    } else {
        bytes_le_exec(&a.name, &b.name)
    }
}

/// Puts a folder's entries in listing order: the same entries, folders first,
/// each group by name.
pub fn sort_listing(entries: Vec<BrowseEntry>) -> (r: Vec<BrowseEntry>)
    ensures
        listing_sorted(r@),
        r@.to_multiset() == entries@.to_multiset(),
{
    broadcast use vstd::seq_lib::group_to_multiset_ensures;

    let ghost all = entries@;
    let mut input = entries;
    let mut out: Vec<BrowseEntry> = Vec::new();
    while input.len() > 0
        invariant
            listing_sorted(out@),
            out@.to_multiset().add(input@.to_multiset()) == all.to_multiset(),
        decreases input.len(),
    {
        let ghost before_in = input@;
        let e = input.pop().unwrap();
        proof {
            assert(before_in =~= input@.push(e));
        }
        let mut p: usize = 0;
        while p < out.len() && entry_le_exec(&out[p], &e)
            invariant
                p <= out.len(),
                forall|k: int| 0 <= k < p ==> entry_le(#[trigger] out@[k], e),
            decreases out.len() - p,
        {
            p = p + 1;
        }
        let ghost before_out = out@;
        out.insert(p, e);
        proof {
            before_out.insert_ensures(p as int, e);
            assert(out@[p as int] == e);
            vstd::seq_lib::to_multiset_insert(before_out, p as int, e);
            assert(out@ == before_out.insert(p as int, e));
            vstd::seq_lib::to_multiset_build(input@, e);
            assert(out@.to_multiset().add(input@.to_multiset()) =~= before_out.to_multiset().add(
                before_in.to_multiset(),
            ));
            if p < before_out.len() {
                lemma_entry_order(e, before_out[p as int], e);
            }
            assert forall|i: int, j: int| 0 <= i < j < out@.len() implies entry_le(
                #[trigger] out@[i],
                #[trigger] out@[j],
            ) by {
                if i < p && j < p {
                    assert(out@[i] == before_out[i] && out@[j] == before_out[j]);
                } else if i < p && j == p {
                } else if i < p {
                    assert(out@[i] == before_out[i] && out@[j] == before_out[j - 1]);
                    lemma_entry_order(before_out[i], e, before_out[j - 1]);
                    if p < before_out.len() {
                        lemma_entry_order(e, before_out[p as int], before_out[j - 1]);
                        if (p as int) < j - 1 {
                            assert(entry_le(before_out[p as int], before_out[j - 1]));
                        }
                    }
                    lemma_entry_order(before_out[i], e, before_out[j - 1]);
                } else if i == p {
                    assert(out@[j] == before_out[j - 1]);
                    lemma_entry_order(e, before_out[p as int], before_out[j - 1]);
                    if (p as int) < j - 1 {
                        assert(entry_le(before_out[p as int], before_out[j - 1]));
                    }
                } else {
                    assert(out@[i] == before_out[i - 1] && out@[j] == before_out[j - 1]);
                }
            }
        }
    }
    proof {
        assert(input@ =~= Seq::<BrowseEntry>::empty());
    }
    out
}

/// Some entry of the listing has these components.
pub open spec fn in_listing(l: Seq<BrowseEntry>, key: Seq<Seq<u8>>) -> bool {
    exists|i: int| 0 <= i < l.len() && #[trigger] path_view(l[i].path).1 == key
}

/// The checked paths after "Select All": every entry of the listing that is
/// not checked yet is checked, in listing order.
pub open spec fn check_all(
    c: Seq<(Seq<u8>, Seq<Seq<u8>>)>,
    l: Seq<BrowseEntry>,
) -> Seq<(Seq<u8>, Seq<Seq<u8>>)>
    decreases l.len(),
{
    if l.len() == 0 {
        c
    } else {
        with_path(check_all(c, l.drop_last()), path_view(l.last().path))
    }
}

/// The checked paths after "Clear All": the checks of the listing's entries
/// go, those made in other folders stay, in their order.
pub open spec fn uncheck_listing(
    c: Seq<(Seq<u8>, Seq<Seq<u8>>)>,
    l: Seq<BrowseEntry>,
) -> Seq<(Seq<u8>, Seq<Seq<u8>>)>
    decreases c.len(),
{
    if c.len() == 0 {
        c
    } else if in_listing(l, c.last().1) {
        uncheck_listing(c.drop_last(), l)
    } else {
        uncheck_listing(c.drop_last(), l).push(c.last())
    }
}

proof fn lemma_uncheck_listing(c: Seq<(Seq<u8>, Seq<Seq<u8>>)>, l: Seq<BrowseEntry>)
    requires
        keys_distinct(c),
    ensures
        keys_distinct(uncheck_listing(c, l)),
        forall|k: Seq<Seq<u8>>| listed(uncheck_listing(c, l), k) ==> listed(c, k),
    decreases c.len(),
{
    if c.len() > 0 {
        let d = c.drop_last();
        assert forall|i: int, j: int| 0 <= i < d.len() && 0 <= j < d.len() && i != j implies
            #[trigger] d[i].1 != #[trigger] d[j].1 by {
            assert(d[i] == c[i] && d[j] == c[j]);
        }
        lemma_uncheck_listing(d, l);
        let u = uncheck_listing(d, l);
        assert forall|k: Seq<Seq<u8>>| listed(uncheck_listing(c, l), k) implies listed(c, k) by {
            let r = uncheck_listing(c, l);
            let w = choose|w: int| 0 <= w < r.len() && #[trigger] r[w].1 == k;
            if w < u.len() {
                assert(r[w] == u[w]);
                assert(listed(d, k));
                let v = choose|v: int| 0 <= v < d.len() && #[trigger] d[v].1 == k;
                assert(c[v] == d[v]);
            } else {
                assert(c[c.len() - 1].1 == k);
            }
        }
        if !in_listing(l, c.last().1) {
            let r = u.push(c.last());
            assert(!listed(u, c.last().1)) by {
                if listed(u, c.last().1) {
                    assert(listed(d, c.last().1));
                    let v = choose|v: int| 0 <= v < d.len() && #[trigger] d[v].1 == c.last().1;
                    assert(c[v] == d[v]);
                    assert(c[c.len() - 1] == c.last());
                }
            }
            assert forall|i: int, j: int| 0 <= i < r.len() && 0 <= j < r.len() && i != j implies
                #[trigger] r[i].1 != #[trigger] r[j].1 by {
                if i == u.len() {
                    assert(r[j] == u[j]);
                } else if j == u.len() {
                    assert(r[i] == u[i]);
                } else {
                    assert(r[i] == u[i] && r[j] == u[j]);
                }
            }
        }
    }
}

/// The browser's state as values.
pub struct BrowserView {
    pub listing: Seq<BrowseEntry>,
    pub checked: Seq<(Seq<u8>, Seq<Seq<u8>>)>,
}

/// What always holds of the browser: the listing is in order and no place is
/// checked twice.
pub open spec fn browser_ok(v: BrowserView) -> bool {
    listing_sorted(v.listing) && keys_distinct(v.checked)
}

/// The in-app browser: the current folder's listing and the checked paths.
pub struct Browser {
    listing: Vec<BrowseEntry>,
    checked: Vec<SourcePath>,
}

impl View for Browser {
    type V = BrowserView;

    closed spec fn view(&self) -> BrowserView {
        BrowserView { listing: self.listing@, checked: path_views(self.checked@) }
    }
}

impl Browser {
    #[verifier::type_invariant]
    closed spec fn well_formed(&self) -> bool {
        listing_sorted(self.listing@) && keys_distinct(path_views(self.checked@))
    }

    /// A browser with nothing listed and nothing checked.
    pub fn new() -> (b: Self)
        ensures
            b@.listing == Seq::<BrowseEntry>::empty(),
            b@.checked == Seq::<(Seq<u8>, Seq<Seq<u8>>)>::empty(),
            browser_ok(b@),
    {
        let b = Browser { listing: Vec::new(), checked: Vec::new() };
        assert(path_views(b.checked@) =~= Seq::<(Seq<u8>, Seq<Seq<u8>>)>::empty());
        b
    }

    /// Shows a folder: its entries in listing order; the checks stay.
    pub fn show(&mut self, entries: Vec<BrowseEntry>)
        ensures
            listing_sorted(final(self)@.listing),
            final(self)@.listing.to_multiset() == entries@.to_multiset(),
            final(self)@.checked == old(self)@.checked,
            browser_ok(old(self)@),
            browser_ok(final(self)@),
    {
        proof {
            use_type_invariant(&*self);
        }
        self.listing = sort_listing(entries);
    }

    /// The entries of the folder shown, in listing order.
    pub fn listing(&self) -> (r: &Vec<BrowseEntry>)
        ensures
            r@ == self@.listing,
            browser_ok(self@),
    {
        proof {
            use_type_invariant(self);
        }
        &self.listing
    }

    /// How many paths are checked ("Add N Selected").
    pub fn checked_count(&self) -> (n: usize)
        ensures
            n == self@.checked.len(),
    {
        self.checked.len()
    }

    /// Whether the `i`-th entry of the listing is checked.
    pub fn is_checked(&self, i: usize) -> (b: bool)
        requires
            i < self@.listing.len(),
        ensures
            b == listed(self@.checked, path_view(self@.listing[i as int].path).1),
    {
        find_key(&self.checked, &self.listing[i].path.key).is_some()
    }

    /// The user ticked or unticked the `i`-th entry.
    pub fn toggle(&mut self, i: usize)
        requires
            i < old(self)@.listing.len(),
        ensures
            final(self)@.listing == old(self)@.listing,
            browser_ok(final(self)@),
            ({
                let p = path_view(old(self)@.listing[i as int].path);
                if listed(old(self)@.checked, p.1) {
                    exists|j: int|
                        0 <= j < old(self)@.checked.len() && old(self)@.checked[j].1 == p.1
                            && #[trigger] final(self)@.checked == old(self)@.checked.remove(j)
                } else {
                    final(self)@.checked == old(self)@.checked.push(p)
                }
            }),
    {
        proof {
            use_type_invariant(&*self);
        }
        let ghost old_checked = path_views(self.checked@);
        match find_key(&self.checked, &self.listing[i].path.key) {
            Some(j) => {
                let mut kept: Vec<SourcePath> = Vec::new();
                let mut k: usize = 0;
                while k < self.checked.len()
                    invariant
                        j < self.checked.len(),
                        old_checked == path_views(self.checked@),
                        k <= self.checked.len(),
                        path_views(kept@) == (if k <= j {
                            old_checked.take(k as int)
                        } else {
                            old_checked.remove(j as int).take(k - 1)
                        }),
                    decreases self.checked.len() - k,
                {
                    if k != j {
                        let ghost before = kept@;
                        let x = crate::paths::copy_path(&self.checked[k]);
                        kept.push(x);
                        proof {
                            lemma_path_views_push(before, x);
                            assert(old_checked[k as int] == path_view(self.checked@[k as int]));
                        }
                    }
                    k = k + 1;
                    if k <= j {
                        assert(path_views(kept@) =~= old_checked.take(k as int));
                    } else {
                        assert(path_views(kept@) =~= old_checked.remove(j as int).take(k - 1));
                    }
                }
                proof {
                    assert(path_views(kept@) =~= old_checked.remove(j as int));
                    let r = old_checked.remove(j as int);
                    assert forall|a: int, b: int| 0 <= a < r.len() && 0 <= b < r.len() && a != b
                        implies #[trigger] r[a].1 != #[trigger] r[b].1 by {
                        let a2 = if a < j { a } else { a + 1 };
                        let b2 = if b < j { b } else { b + 1 };
                        assert(r[a] == old_checked[a2]);
                        assert(r[b] == old_checked[b2]);
                    }
                }
                self.checked = kept;
                proof {
                    assert(path_views(self.checked@) == old_checked.remove(j as int));
                }
            },
            None => {
                let mut grown = copy_paths(&self.checked);
                let x = crate::paths::copy_path(&self.listing[i].path);
                let ghost before = grown@;
                grown.push(x);
                proof {
                    lemma_path_views_push(before, x);
                    crate::ui_state::law_add_source_idempotent(old_checked, path_view(x));
                }
                self.checked = grown;
            },
        }
        proof {
            use_type_invariant(&*self);
        }
    }

    /// "Select All": checks every entry of the folder shown.
    pub fn select_all(&mut self)
        ensures
            final(self)@.listing == old(self)@.listing,
            final(self)@.checked == check_all(old(self)@.checked, old(self)@.listing),
            browser_ok(final(self)@),
    {
        proof {
            use_type_invariant(&*self);
        }
        let ghost start = path_views(self.checked@);
        let mut grown = copy_paths(&self.checked);
        let mut i: usize = 0;
        while i < self.listing.len()
            invariant
                i <= self.listing.len(),
                path_views(grown@) == check_all(start, self.listing@.take(i as int)),
                keys_distinct(path_views(grown@)),
            decreases self.listing.len() - i,
        {
            proof {
                assert(self.listing@.take(i + 1).drop_last() =~= self.listing@.take(i as int));
            }
            let ghost before = grown@;
            match find_key(&grown, &self.listing[i].path.key) {
                Some(_) => {},
                None => {
                    let x = crate::paths::copy_path(&self.listing[i].path);
                    grown.push(x);
                    proof {
                        lemma_path_views_push(before, x);
                    }
                },
            }
            proof {
                crate::ui_state::law_add_source_idempotent(
                    path_views(before),
                    path_view(self.listing@[i as int].path),
                );
            }
            i = i + 1;
        }
        proof {
            assert(self.listing@.take(self.listing.len() as int) =~= self.listing@);
        }
        self.checked = grown;
    }

    /// "Clear All": unchecks every entry of the folder shown; checks made in
    /// other folders stay.
    pub fn clear_all(&mut self)
        ensures
            final(self)@.listing == old(self)@.listing,
            final(self)@.checked == uncheck_listing(old(self)@.checked, old(self)@.listing),
            browser_ok(final(self)@),
    {
        proof {
            use_type_invariant(&*self);
        }
        let ghost start = path_views(self.checked@);
        let mut kept: Vec<SourcePath> = Vec::new();
        let mut i: usize = 0;
        while i < self.checked.len()
            invariant
                i <= self.checked.len(),
                start == path_views(self.checked@),
                path_views(kept@) == uncheck_listing(start.take(i as int), self.listing@),
            decreases self.checked.len() - i,
        {
            proof {
                assert(start.take(i + 1).drop_last() =~= start.take(i as int));
                assert(start.take(i + 1).last() == path_view(self.checked@[i as int]));
            }
            let mut found = false;
            let mut m: usize = 0;
            while m < self.listing.len()
                invariant
                    m <= self.listing.len(),
                    i < self.checked.len(),
                    found == (exists|w: int|
                        0 <= w < m && #[trigger] path_view(self.listing@[w].path).1
                            == path_view(self.checked@[i as int]).1),
                decreases self.listing.len() - m,
            {
                let same = crate::paths::same_key(&self.listing[m].path.key, &self.checked[i].key);
                proof {
                    assert(same == (path_view(self.listing@[m as int].path).1 == path_view(
                        self.checked@[i as int],
                    ).1));
                }
                if same {
                    found = true;
                }
                m = m + 1;
                proof {
                    if !found {
                        assert forall|w: int| 0 <= w < m implies !(#[trigger] path_view(
                            self.listing@[w].path,
                        ).1 == path_view(self.checked@[i as int]).1) by {}
                    }
                }
            }
            if !found {
                let ghost before = kept@;
                let x = crate::paths::copy_path(&self.checked[i]);
                kept.push(x);
                proof {
                    lemma_path_views_push(before, x);
                }
            }
            i = i + 1;
        }
        proof {
            assert(start.take(self.checked.len() as int) =~= start);
            lemma_uncheck_listing(start, self.listing@);
        }
        self.checked = kept;
    }

    /// "Add N Selected": hands over the checked paths, in the order they were
    /// checked, and clears the checks.
    pub fn take_checked(&mut self) -> (r: Vec<SourcePath>)
        ensures
            path_views(r@) == old(self)@.checked,
            final(self)@.checked == Seq::<(Seq<u8>, Seq<Seq<u8>>)>::empty(),
            final(self)@.listing == old(self)@.listing,
            browser_ok(final(self)@),
    {
        proof {
            use_type_invariant(&*self);
        }
        let r = copy_paths(&self.checked);
        self.checked = Vec::new();
        proof {
            assert(path_views(self.checked@) =~= Seq::<(Seq<u8>, Seq<Seq<u8>>)>::empty());
        }
        r
    }
}

} // verus!
