//! The catalog: admitted applications, favourites first, then by
//! case-insensitive name, ties kept in discovery order.
use vstd::prelude::*;
use crate::entry::{custom_model, record_model, App, AppModel, CustomApp, DesktopRecord};
use crate::text::{
    chars_less, chars_lt, contains_name, lemma_chars_lt_asym, lemma_chars_lt_le, lower_of,
    lowercase, opt_view, str_views, to_chars,
};

verus! {

/// The sort key of an entry: whether it is a favourite, and its lowercase name.
pub type CatalogKey = (bool, Seq<char>);

/// The sort key of `a` given the favourite names.
pub open spec fn catalog_key(a: AppModel, favorites: Seq<Seq<char>>) -> CatalogKey {
    (favorites.contains(a.name), lower_of(a.name))
}

/// Favourites first; within a group, lowercase names in code-point order.
pub open spec fn key_lt(x: CatalogKey, y: CatalogKey) -> bool {
    (x.0 && !y.0) || (x.0 == y.0 && chars_lt(x.1, y.1))
}

/// `key_lt` is asymmetric.
pub proof fn lemma_key_lt_asym(x: CatalogKey, y: CatalogKey)
    requires
        key_lt(x, y),
    ensures
        !key_lt(y, x),
{
    if x.0 == y.0 {
        lemma_chars_lt_asym(x.1, y.1);
    }
}

/// A key strictly below `y` is strictly below any key not below `y`.
pub proof fn lemma_key_lt_le(x: CatalogKey, y: CatalogKey, z: CatalogKey)
    requires
        key_lt(x, y),
        !key_lt(z, y),
    ensures
        key_lt(x, z),
{
    if x.0 == y.0 && y.0 == z.0 {
        lemma_chars_lt_le(x.1, y.1, z.1);
    }
}

/// Whether entry `i` of `src` goes before entry `j`: a smaller key, or an
/// equal key and an earlier discovery position.
pub open spec fn placed_before(src: Seq<AppModel>, favorites: Seq<Seq<char>>, i: int, j: int) -> bool {
    let ki = catalog_key(src[i], favorites);
    let kj = catalog_key(src[j], favorites);
    key_lt(ki, kj) || (!key_lt(kj, ki) && i < j)
}

/// `order` names every position of `src` exactly once, and `out` holds the
/// entries of `src` in that order.
pub open spec fn is_arrangement(src: Seq<AppModel>, out: Seq<AppModel>, order: Seq<int>) -> bool {
    &&& order.len() == src.len()
    &&& out.len() == src.len()
    &&& forall|i: int| 0 <= i < order.len() ==> 0 <= #[trigger] order[i] < src.len()
    &&& forall|i: int, j: int| 0 <= i < j < order.len() ==> order[i] != order[j]
    &&& forall|i: int| 0 <= i < out.len() ==> #[trigger] out[i] == src[order[i]]
}

/// Each position in `order` goes before every later one.
pub open spec fn is_catalog_order(
    src: Seq<AppModel>,
    favorites: Seq<Seq<char>>,
    order: Seq<int>,
) -> bool {
    forall|i: int, j: int|
        0 <= i < j < order.len() ==> #[trigger] placed_before(src, favorites, order[i], order[j])
}

/// Favourites ahead of every other entry, and lowercase names never
/// decreasing within each group.
pub open spec fn in_catalog_order(out: Seq<AppModel>, favorites: Seq<Seq<char>>) -> bool {
    forall|i: int, j: int|
        0 <= i < j < out.len() ==> {
            &&& (favorites.contains(#[trigger] out[j].name) ==> favorites.contains(
                #[trigger] out[i].name,
            ))
            &&& (favorites.contains(out[i].name) == favorites.contains(out[j].name)
                ==> !chars_lt(lower_of(out[j].name), lower_of(out[i].name)))
        }
}

/// The models of a list of applications.
pub open spec fn models(apps: Seq<App>) -> Seq<AppModel> {
    apps.map_values(|a: App| a@)
}

/// An arrangement in catalog order puts every favourite before every other
/// entry, orders each group by lowercase name, and keeps entries with the
/// same favourite status and lowercase name in discovery order.
pub proof fn lemma_catalog_order(
    src: Seq<AppModel>,
    out: Seq<AppModel>,
    favorites: Seq<Seq<char>>,
    order: Seq<int>,
)
    requires
        is_arrangement(src, out, order),
        is_catalog_order(src, favorites, order),
    ensures
        in_catalog_order(out, favorites),
        forall|i: int, j: int|
            0 <= i < j < out.len() && catalog_key(out[i], favorites) == catalog_key(
                out[j],
                favorites,
            ) ==> order[i] < order[j],
{
    assert forall|i: int, j: int| 0 <= i < j < out.len() implies {
        &&& (favorites.contains(#[trigger] out[j].name) ==> favorites.contains(
            #[trigger] out[i].name,
        ))
        &&& (favorites.contains(out[i].name) == favorites.contains(out[j].name)
            ==> !chars_lt(lower_of(out[j].name), lower_of(out[i].name)))
    } by {
        assert(placed_before(src, favorites, order[i], order[j]));
        let ki = catalog_key(src[order[i]], favorites);
        let kj = catalog_key(src[order[j]], favorites);
        if key_lt(ki, kj) {
            lemma_key_lt_asym(ki, kj);
        }
    }
    assert forall|i: int, j: int|
        0 <= i < j < out.len() && catalog_key(out[i], favorites) == catalog_key(
            out[j],
            favorites,
        ) implies order[i] < order[j] by {
        assert(placed_before(src, favorites, order[i], order[j]));
        let ki = catalog_key(src[order[i]], favorites);
        if key_lt(ki, ki) {
            lemma_key_lt_asym(ki, ki);
        }
    }
}

fn key_less(fa: bool, na: &Vec<char>, fb: bool, nb: &Vec<char>) -> (r: bool)
    ensures
        r == key_lt((fa, na@), (fb, nb@)),
{
    if fa && !fb {
        true
    } else if fa == fb {
        chars_less(na, nb)
    } else {
        false
    }
}

/// Sorts applications into catalog order: favourites first, then by
/// lowercase name, keeping discovery order among equal keys.
pub fn order_catalog(apps: Vec<App>, favorites: &Vec<String>) -> (r: Vec<App>)
    ensures
        exists|order: Seq<int>|
            is_arrangement(models(apps@), models(r@), order) && is_catalog_order(
                models(apps@),
                str_views(favorites@),
                order,
            ),
        in_catalog_order(models(r@), str_views(favorites@)),
{
    let ghost src = models(apps@);
    let ghost favs = str_views(favorites@);
    let n = apps.len();
    let mut rest = apps;
    let mut out: Vec<App> = Vec::new();
    let mut flags: Vec<bool> = Vec::new();
    let mut names: Vec<Vec<char>> = Vec::new();
    let ghost mut order: Seq<int> = Seq::empty();
    let mut k: usize = 0;
    assert(models(rest@) =~= src.subrange(0, n as int));
    while k < n
        invariant
            n == src.len(),
            src == models(apps@),
            favs == str_views(favorites@),
            k <= n,
            models(rest@) == src.subrange(k as int, n as int),
            out@.len() == k,
            flags@.len() == k,
            names@.len() == k,
            order.len() == k,
            forall|q: int| 0 <= q < k ==> 0 <= #[trigger] order[q] < k,
            forall|p: int, q: int| 0 <= p < q < k ==> order[p] != order[q],
            forall|q: int| 0 <= q < k ==> #[trigger] out@[q]@ == src[order[q]],
            forall|q: int|
                0 <= q < k ==> (flags@[q], #[trigger] names@[q]@) == catalog_key(
                    src[order[q]],
                    favs,
                ),
            is_catalog_order(src, favs, order),
        decreases n - k,
    {
        let ghost before_rest = rest@;
        assert(models(rest@).len() == rest@.len());
        let a = rest.remove(0);
        assert(models(before_rest)[0] == a@);
        assert(src.subrange(k as int, n as int)[0] == src[k as int]);
        assert(src[k as int] == a@);
        assert forall|i: int| 0 <= i < rest@.len() implies #[trigger] models(rest@)[i] == src.subrange(
            k + 1,
            n as int,
        )[i] by {
            assert(rest@[i] == before_rest[i + 1]);
            assert(models(before_rest)[i + 1] == src.subrange(k as int, n as int)[i + 1]);
        }
        assert(models(rest@) =~= src.subrange(k + 1, n as int));
        let fav = contains_name(favorites, &a.name);
        let lname = lowercase(a.name.as_str());
        let name = to_chars(lname.as_str());
        let ghost kx = catalog_key(src[k as int], favs);
        assert(fav == kx.0);
        assert(name@ == kx.1);
        let mut p: usize = 0;
        loop
            invariant
                p <= k,
                k == flags@.len(),
                k == names@.len(),
                (fav, name@) == kx,
                forall|q: int| 0 <= q < p ==> !key_lt(kx, (flags@[q], #[trigger] names@[q]@)),
            ensures
                p <= k,
                forall|q: int| 0 <= q < p ==> !key_lt(kx, (flags@[q], #[trigger] names@[q]@)),
                p < k ==> key_lt(kx, (flags@[p as int], names@[p as int]@)),
            decreases k - p,
        {
            if p == k {
                break;
            }
            if key_less(fav, &name, flags[p], &names[p]) {
                break;
            }
            p = p + 1;
        }
        let ghost old_order = order;
        let ghost old_flags = flags@;
        let ghost old_names = names@;
        out.insert(p, a);
        flags.insert(p, fav);
        names.insert(p, name);
        proof {
            order = old_order.insert(p as int, k as int);
            assert forall|i: int, j: int| 0 <= i < j < order.len() implies #[trigger] placed_before(
                src,
                favs,
                order[i],
                order[j],
            ) by {
                if j < p {
                    assert(placed_before(src, favs, old_order[i], old_order[j]));
                } else if j == p {
                    assert(!key_lt(kx, (old_flags[i], old_names[i]@)));
                    assert((old_flags[i], old_names[i]@) == catalog_key(src[old_order[i]], favs));
                } else if i < p {
                    assert(placed_before(src, favs, old_order[i], old_order[j - 1]));
                } else if i == p {
                    let kp = catalog_key(src[old_order[p as int]], favs);
                    let kj = catalog_key(src[old_order[j - 1]], favs);
                    assert((old_flags[p as int], old_names[p as int]@) == kp);
                    assert(key_lt(kx, kp));
                    if j - 1 > p {
                        assert(placed_before(src, favs, old_order[p as int], old_order[j - 1]));
                        if key_lt(kp, kj) {
                            lemma_key_lt_asym(kp, kj);
                        }
                        lemma_key_lt_le(kx, kp, kj);
                    }
                } else {
                    assert(placed_before(src, favs, old_order[i - 1], old_order[j - 1]));
                }
            }
        }
        k = k + 1;
    }
    assert(is_arrangement(src, models(out@), order));
    proof {
        lemma_catalog_order(src, models(out@), favs, order);
    }
    out
}


/// Whether a desktop record becomes a catalog entry: shown, not hidden,
/// with a non-empty name and command, and a name outside `exclude`.
pub open spec fn record_admitted(rec: DesktopRecord, exclude: Seq<Seq<char>>) -> bool {
    &&& !rec.no_display
    &&& !rec.hidden
    &&& rec.command is Some
    &&& rec.name is Some
    &&& record_model(rec).command.len() > 0
    &&& record_model(rec).name.len() > 0
    &&& !exclude.contains(record_model(rec).name)
}

/// Whether a custom entry becomes a catalog entry: a non-empty name and
/// command, and a name outside `exclude`.
pub open spec fn custom_admitted(c: CustomApp, exclude: Seq<Seq<char>>) -> bool {
    &&& c.name@.len() > 0
    &&& c.command@.len() > 0
    &&& !exclude.contains(c.name@)
}

/// The entries that the admitted records stand for, in record order.
pub open spec fn discovered_models(recs: Seq<DesktopRecord>, exclude: Seq<Seq<char>>) -> Seq<
    AppModel,
>
    decreases recs.len(),
{
    if recs.len() == 0 {
        Seq::empty()
    } else {
        let rest = discovered_models(recs.drop_last(), exclude);
        if record_admitted(recs.last(), exclude) {
            rest.push(record_model(recs.last()))
        } else {
            rest
        }
    }
}

/// The entries that the admitted custom entries stand for, in order.
pub open spec fn custom_models(cs: Seq<CustomApp>, exclude: Seq<Seq<char>>) -> Seq<AppModel>
    decreases cs.len(),
{
    if cs.len() == 0 {
        Seq::empty()
    } else {
        let rest = custom_models(cs.drop_last(), exclude);
        if custom_admitted(cs.last(), exclude) {
            rest.push(custom_model(cs.last()))
        } else {
            rest
        }
    }
}

/// Every admitted entry, discovered ones first, before ordering.
pub open spec fn catalog_entries(
    recs: Seq<DesktopRecord>,
    cs: Seq<CustomApp>,
    exclude: Seq<Seq<char>>,
) -> Seq<AppModel> {
    discovered_models(recs, exclude) + custom_models(cs, exclude)
}

/// The application a desktop record stands for, if it is admitted.
pub fn admit_record(rec: DesktopRecord, exclude: &Vec<String>) -> (r: Option<App>)
    ensures
        r is Some <==> record_admitted(rec, str_views(exclude@)),
        r is Some ==> r->0@ == record_model(rec),
{
    if rec.no_display || rec.hidden {
        return None;
    }
    let ghost model = record_model(rec);
    let DesktopRecord { no_display: _, hidden: _, command, name, icon, comment, keywords, terminal } = rec;
    let command = match command {
        Some(c) => c,
        None => {
            return None;
        },
    };
    let name = match name {
        Some(n) => n,
        None => {
            return None;
        },
    };
    if command.as_str().is_empty() || name.as_str().is_empty() || contains_name(exclude, &name) {
        return None;
    }
    Some(App { name, command, icon, description: comment, keywords, terminal })
}

/// The application a custom entry stands for, if it is admitted.
pub fn admit_custom(c: &CustomApp, exclude: &Vec<String>) -> (r: Option<App>)
    ensures
        r is Some <==> custom_admitted(*c, str_views(exclude@)),
        r is Some ==> r->0@ == custom_model(*c),
{
    if c.command.as_str().is_empty() || c.name.as_str().is_empty() || contains_name(
        exclude,
        &c.name,
    ) {
        return None;
    }
    Some(App::from_custom(c))
}

/// Builds the catalog: the admitted desktop records in the order given,
/// then the admitted custom entries, all sorted into catalog order.
pub fn build_catalog(
    records: Vec<DesktopRecord>,
    custom: &Vec<CustomApp>,
    exclude: &Vec<String>,
    favorites: &Vec<String>,
) -> (r: Vec<App>)
    ensures
        exists|order: Seq<int>|
            is_arrangement(
                catalog_entries(records@, custom@, str_views(exclude@)),
                models(r@),
                order,
            ) && is_catalog_order(
                catalog_entries(records@, custom@, str_views(exclude@)),
                str_views(favorites@),
                order,
            ),
        in_catalog_order(models(r@), str_views(favorites@)),
{
    let ghost ex = str_views(exclude@);
    let ghost recs = records@;
    let n = records.len();
    let mut rest = records;
    let mut apps: Vec<App> = Vec::new();
    let mut i: usize = 0;
    assert(rest@ =~= recs.subrange(0, n as int));
    assert(recs.subrange(0, 0) =~= Seq::<DesktopRecord>::empty());
    assert(models(apps@) =~= discovered_models(recs.subrange(0, 0), ex));
    while i < n
        invariant
            n == recs.len(),
            ex == str_views(exclude@),
            i <= n,
            rest@ == recs.subrange(i as int, n as int),
            models(apps@) == discovered_models(recs.subrange(0, i as int), ex),
        decreases n - i,
    {
        let rec = rest.remove(0);
        assert(rest@ =~= recs.subrange(i + 1, n as int));
        assert(recs.subrange(0, i + 1).drop_last() =~= recs.subrange(0, i as int));
        let ghost before = apps@;
        match admit_record(rec, exclude) {
            Some(a) => {
                apps.push(a);
                assert(models(apps@) =~= models(before).push(a@));
            },
            None => {},
        }
        i = i + 1;
    }
    assert(recs.subrange(0, n as int) =~= recs);
    let ghost discovered = apps@;
    let m = custom.len();
    let mut j: usize = 0;
    assert(custom@.subrange(0, 0) =~= Seq::<CustomApp>::empty());
    assert(models(apps@) =~= models(discovered) + custom_models(custom@.subrange(0, 0), ex));
    while j < m
        invariant
            m == custom@.len(),
            ex == str_views(exclude@),
            j <= m,
            models(apps@) == models(discovered) + custom_models(custom@.subrange(0, j as int), ex),
        decreases m - j,
    {
        assert(custom@.subrange(0, j + 1).drop_last() =~= custom@.subrange(0, j as int));
        let ghost before = apps@;
        match admit_custom(&custom[j], exclude) {
            Some(a) => {
                apps.push(a);
                assert(models(apps@) =~= models(before).push(a@));
            },
            None => {},
        }
        j = j + 1;
    }
    assert(custom@.subrange(0, m as int) =~= custom@);
    assert(models(apps@) == catalog_entries(records@, custom@, ex));
    order_catalog(apps, favorites)
}


/// The built-in directories searched for desktop entries, in precedence
/// order, given the user's data directory if there is one.
pub open spec fn default_dirs(data_home: Option<Seq<char>>) -> Seq<Seq<char>> {
    match data_home {
        Some(h) => seq![
            h + "/applications"@,
            "/usr/share/applications"@,
            "/usr/local/share/applications"@,
            h + "/flatpak/exports/share/applications"@,
            "/var/lib/flatpak/exports/share/applications"@,
        ],
        None => seq![
            "/usr/share/applications"@,
            "/usr/local/share/applications"@,
            "/var/lib/flatpak/exports/share/applications"@,
        ],
    }
}

fn under(home: &String, rest: &str) -> (r: String)
    ensures
        r@ == home@ + rest@,
{
    let mut p = home.clone();
    p.append(rest);
    p
}

/// The directories searched for desktop entries: the user's
/// `applications` directory, the system ones, the Flatpak exports, then the
/// configured extra directories.
pub fn application_dirs(data_home: &Option<String>, extra: &Vec<String>) -> (r: Vec<String>)
    ensures
        str_views(r@) == default_dirs(opt_view(*data_home)) + str_views(extra@),
{
    let mut dirs: Vec<String> = Vec::new();
    if let Some(h) = data_home {
        dirs.push(under(h, "/applications"));
    }
    dirs.push(String::from_str("/usr/share/applications"));
    dirs.push(String::from_str("/usr/local/share/applications"));
    if let Some(h) = data_home {
        dirs.push(under(h, "/flatpak/exports/share/applications"));
    }
    dirs.push(String::from_str("/var/lib/flatpak/exports/share/applications"));
    let ghost fixed = dirs@;
    assert(str_views(fixed) =~= default_dirs(opt_view(*data_home)));
    let mut i: usize = 0;
    while i < extra.len()
        invariant
            i <= extra@.len(),
            dirs@.len() == fixed.len() + i,
            forall|j: int| 0 <= j < fixed.len() ==> #[trigger] dirs@[j] == fixed[j],
            forall|j: int| 0 <= j < i ==> (#[trigger] dirs@[fixed.len() + j])@ == extra@[j]@,
        decreases extra@.len() - i,
    {
        dirs.push(extra[i].clone());
        i = i + 1;
    }
    assert forall|j: int| 0 <= j < dirs@.len() implies #[trigger] str_views(dirs@)[j] == (str_views(
        fixed,
    ) + str_views(extra@))[j] by {
        if j >= fixed.len() {
            assert(dirs@[fixed.len() + (j - fixed.len())]@ == extra@[j - fixed.len()]@);
        }
    }
    assert(str_views(dirs@) =~= str_views(fixed) + str_views(extra@));
    dirs
}

} // verus!
