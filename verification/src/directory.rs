//! A whole scrape of a directory, from the listing to the text, and what leaves it
//! as it is.

use crate::aggregate::{passed_over, rows_in_order};
use crate::exporter::{
    checked, errors_text, export_rows, file_after, found_params, law_failed_file_isolated,
    lemma_scraped_same, readable_files, refresh_pass, refreshed, scrape_text, scraped,
    unread_file, unreadable_files, walk_start, CachedFileView, EventView, FileIdentity,
};
use crate::file_name::{is_metric_entry, name_params, DirEntry, FileName, FileParamsView};
use crate::key_table::{
    in_order, law_key_has_place, lemma_row_map, lemma_sorted_rows, lemma_update_row, row_map,
    row_with, sorted_rows,
};
use crate::merge::{lemma_merged_same, merged_entries, places_fit, EntryKeyView, MetaView};
use crate::mmap_file::{value_at, HEADER_SIZE};
use crate::render::rendered;
use crate::scan::{lemma_scan_bounds, lemma_scan_same, scan, used_of, used_overruns};
use vstd::prelude::*;

verus! {

/// What a look at a file that is kept in mind shows: its length and identity, if it
/// can be reached, and its bytes, if it can be mapped.
pub struct LookView {
    pub seen: Option<(usize, Option<FileIdentity>)>,
    pub map: Option<Seq<u8>>,
}

/// What a directory shows during a scrape: its entries, the number of those that
/// cannot be read, and of each file by name what became of it and what it shows.
pub struct DirView {
    pub listing: Seq<DirEntry>,
    pub unread: int,
    pub events: Map<Seq<u8>, EventView>,
    pub looks: Map<Seq<u8>, LookView>,
}

/// What a scrape of a directory comes to: the files that stay in mind, what is known
/// of every key, and the number of files that were skipped.
pub struct DirScrapeView {
    pub files: Seq<(Seq<u8>, CachedFileView)>,
    pub known: Map<EntryKeyView, MetaView>,
    pub errors: int,
}

/// The files of a listing, in the order of their names.
pub open spec fn found_rows(listing: Seq<DirEntry>) -> Seq<(Seq<u8>, FileParamsView)> {
    sorted_rows::<FileName, FileParamsView>(readable_files(listing, listing.len() as int))
}

/// What became of each of the files that were found.
pub open spec fn found_events(
    found: Seq<(Seq<u8>, FileParamsView)>,
    events: Map<Seq<u8>, EventView>,
) -> Seq<EventView> {
    found.map_values(|row: (Seq<u8>, FileParamsView)| events[row.0])
}

/// A file after a look at it.
pub open spec fn looked(file: CachedFileView, look: LookView) -> CachedFileView {
    match look.seen {
        Some((len, identity)) => checked(file, len, identity),
        None => file,
    }
}

/// Files after a look at each.
pub open spec fn looked_at(
    files: Seq<(Seq<u8>, CachedFileView)>,
    looks: Map<Seq<u8>, LookView>,
) -> Seq<(Seq<u8>, CachedFileView)> {
    files.map_values(|row: (Seq<u8>, CachedFileView)| (row.0, looked(row.1, looks[row.0])))
}

/// The bytes of files.
pub open spec fn looked_maps(
    files: Seq<(Seq<u8>, CachedFileView)>,
    looks: Map<Seq<u8>, LookView>,
) -> Seq<Option<Seq<u8>>> {
    files.map_values(|row: (Seq<u8>, CachedFileView)| looks[row.0].map)
}

/// The files that are kept in mind after a pass over those that were found, by name.
pub open spec fn kept_files(
    cache: Map<Seq<u8>, CachedFileView>,
    found: Seq<(Seq<u8>, FileParamsView)>,
    events: Seq<EventView>,
) -> Map<Seq<u8>, CachedFileView> {
    refresh_pass(cache, found_params(found), events, found.len() as int).files.restrict(
        row_map(found).dom(),
    )
}

/// A scrape of a directory by an exporter that kept these files in mind.
pub open spec fn dir_scraped(
    cache: Map<Seq<u8>, CachedFileView>,
    dir: DirView,
) -> DirScrapeView {
    let found = found_rows(dir.listing);
    let events = found_events(found, dir.events);
    let pass = refresh_pass(cache, found_params(found), events, found.len() as int);
    let kept = sorted_rows::<FileName, CachedFileView>(kept_files(cache, found, events));
    let scrape = scraped(
        looked_at(kept, dir.looks),
        looked_maps(kept, dir.looks),
        kept.len() as int,
    );
    DirScrapeView {
        files: scrape.files,
        known: scrape.known,
        errors: dir.unread + unreadable_files(dir.listing, dir.listing.len() as int).len()
            + pass.failures.len() + scrape.failures.len(),
    }
}

/// An exporter that finds the files of a directory, brings what it keeps in mind up to
/// date with them, looks at each file it keeps and then scrapes them, has scraped the
/// directory.
pub proof fn law_steps_scrape_directory(
    cache: Map<Seq<u8>, CachedFileView>,
    dir: DirView,
    found: Seq<(Seq<u8>, FileParamsView)>,
    kept: Seq<(Seq<u8>, CachedFileView)>,
)
    requires
        in_order::<FileName, FileParamsView>(found),
        row_map(found) == readable_files(dir.listing, dir.listing.len() as int),
        in_order::<FileName, CachedFileView>(kept),
        row_map(kept) == kept_files(cache, found, found_events(found, dir.events)),
    ensures
        ({
            let skipped = dir.unread + unreadable_files(
                dir.listing,
                dir.listing.len() as int,
            ).len();
            let pass = refresh_pass(
                cache,
                found_params(found),
                found_events(found, dir.events),
                found.len() as int,
            );
            let scrape = scraped(
                looked_at(kept, dir.looks),
                looked_maps(kept, dir.looks),
                kept.len() as int,
            );
            &&& dir_scraped(cache, dir).files == scrape.files
            &&& dir_scraped(cache, dir).known == scrape.known
            &&& dir_scraped(cache, dir).errors == skipped + pass.failures.len()
                + scrape.failures.len()
        }),
{
    lemma_sorted_rows::<FileName, FileParamsView>(found);
    lemma_sorted_rows::<FileName, CachedFileView>(kept);
}

/// A file of the current version cannot be used: its header claims bytes that it does
/// not have, or one of its entries is not text.
pub open spec fn unusable_bytes(map: Seq<u8>) -> bool {
    &&& !passed_over(map)
    &&& used_overruns(map) || scan(map, HEADER_SIZE as int, used_of(map)).stop is NotText
}

/// A metric file of a directory cannot be used: its name cannot be read, it cannot be
/// reached, or what it holds cannot be used.
pub open spec fn unusable(entry: DirEntry, event: EventView) -> bool {
    &&& is_metric_entry(entry)
    &&& name_params(entry.name@, entry.shown@) is Err || match event {
        EventView::Opened { identity, map } => unusable_bytes(map),
        EventView::Checked { len, identity } => false,
        EventView::Failed => true,
    }
}

/// One more file that cannot be used changes nothing of a scrape but the number of
/// files that were skipped, which is one more: every other line is as it was.
pub proof fn law_unusable_file_counts_once(
    cache: Map<Seq<u8>, CachedFileView>,
    dir: DirView,
    k: int,
    entry: DirEntry,
)
    requires
        0 <= k <= dir.listing.len(),
        unusable(entry, dir.events[entry.name@]),
        forall|i: int|
            0 <= i < dir.listing.len() ==> (#[trigger] dir.listing[i]).name@ != entry.name@,
    ensures
        ({
            let without = dir_scraped(cache, dir);
            let with = dir_scraped(cache, DirView { listing: dir.listing.insert(k, entry), ..dir });
            &&& with.files == without.files
            &&& with.known == without.known
            &&& with.errors == without.errors + 1
            &&& forall|values: Seq<Seq<char>>| #[trigger]
                scrape_text(with.known, values, with.errors) == rendered(
                    export_rows(rows_in_order(without.known), values),
                ) + errors_text(without.errors + 1)
        }),
{
    let listing = dir.listing;
    let more = listing.insert(k, entry);
    let n = listing.len() as int;
    lemma_listed(listing, k, entry, n);
    match name_params(entry.name@, entry.shown@) {
        Err(_) => {},
        Ok(params) => {
            lemma_found_rows(listing, n);
            let found = found_rows(listing);
            lemma_found_by_name(listing, n);
            assert(!row_map(found).dom().contains(entry.name@)) by {
                lemma_listed_names(listing, n, entry.name@);
            }
            let pos = law_key_has_place::<FileName, FileParamsView>(found, entry.name@, params);
            let found_more = found.insert(pos, (entry.name@, params));
            lemma_sorted_rows::<FileName, FileParamsView>(found_more);
            assert(found_rows(more) == found_more);
            assert forall|i: int| 0 <= i < found.len() implies (#[trigger] found[i]).1.name
                != entry.name@ by {
                lemma_row_map::<FileName, FileParamsView>(found, i);
            }
            lemma_pass_with(
                cache,
                found,
                dir.events,
                pos,
                entry.name@,
                params,
                None,
                found.len() as int,
            );
            let with = refresh_pass(
                cache,
                found_params(found_more),
                found_events(found_more, dir.events),
                found_more.len() as int,
            );
            let without = refresh_pass(
                cache,
                found_params(found),
                found_events(found, dir.events),
                found.len() as int,
            );
            assert(with.files.restrict(row_map(found_more).dom()) =~= without.files.restrict(
                row_map(found).dom(),
            ));
        },
    }
}

/// One more entry of a listing adds one file that was found or one that is skipped,
/// and leaves the others as they are.
proof fn lemma_listed(listing: Seq<DirEntry>, k: int, entry: DirEntry, n: int)
    requires
        0 <= k <= n <= listing.len(),
        is_metric_entry(entry),
        forall|i: int| 0 <= i < listing.len() ==> (#[trigger] listing[i]).name@ != entry.name@,
    ensures
        match name_params(entry.name@, entry.shown@) {
            Ok(params) => {
                &&& readable_files(listing.insert(k, entry), n + 1) == readable_files(
                    listing,
                    n,
                ).insert(entry.name@, params)
                &&& unreadable_files(listing.insert(k, entry), n + 1).len() == unreadable_files(
                    listing,
                    n,
                ).len()
            },
            Err(_) => {
                &&& readable_files(listing.insert(k, entry), n + 1) == readable_files(listing, n)
                &&& unreadable_files(listing.insert(k, entry), n + 1).len() == unreadable_files(
                    listing,
                    n,
                ).len() + 1
            },
        },
    decreases n,
{
    let more = listing.insert(k, entry);
    if n == k {
        lemma_listed_same(listing, more, k);
        assert(more[k] == entry);
    } else {
        lemma_listed(listing, k, entry, n - 1);
        assert(more[n] == listing[n - 1]);
        assert(listing[n - 1].name@ != entry.name@);
        match (name_params(entry.name@, entry.shown@), name_params(
            listing[n - 1].name@,
            listing[n - 1].shown@,
        )) {
            (Ok(params), Ok(other)) => {
                let before = readable_files(listing, n - 1);
                let name = listing[n - 1].name@;
                assert(before.insert(entry.name@, params).insert(name, other) =~= before.insert(
                    name,
                    other,
                ).insert(entry.name@, params));
            },
            _ => {},
        }
    }
}

proof fn lemma_listed_same(a: Seq<DirEntry>, b: Seq<DirEntry>, n: int)
    requires
        forall|i: int| 0 <= i < n ==> a[i] == b[i],
    ensures
        readable_files(b, n) == readable_files(a, n),
        unreadable_files(b, n) == unreadable_files(a, n),
    decreases n,
{
    if n > 0 {
        lemma_listed_same(a, b, n - 1);
        assert(a[n - 1] == b[n - 1]);
    }
}

/// The files that were found are under the names of entries.
proof fn lemma_listed_names(listing: Seq<DirEntry>, n: int, name: Seq<u8>)
    requires
        0 <= n <= listing.len(),
        forall|i: int| 0 <= i < listing.len() ==> (#[trigger] listing[i]).name@ != name,
    ensures
        !readable_files(listing, n).dom().contains(name),
    decreases n,
{
    if n > 0 {
        lemma_listed_names(listing, n - 1, name);
        assert(listing[n - 1].name@ != name);
    }
}

/// Each file that was found is under its own name.
proof fn lemma_found_by_name(listing: Seq<DirEntry>, n: int)
    ensures
        forall|name: Seq<u8>| #[trigger]
            readable_files(listing, n).dom().contains(name) ==> readable_files(
                listing,
                n,
            )[name].name == name,
    decreases n,
{
    if n > 0 {
        lemma_found_by_name(listing, n - 1);
    }
}

/// The files of a listing can be put in the order of their names.
proof fn lemma_found_rows(listing: Seq<DirEntry>, n: int)
    requires
        0 <= n <= listing.len(),
    ensures
        ({
            let found = sorted_rows::<FileName, FileParamsView>(readable_files(listing, n));
            in_order::<FileName, FileParamsView>(found) && row_map(found) == readable_files(
                listing,
                n,
            )
        }),
    decreases n,
{
    if n <= 0 {
        let none = Seq::<(Seq<u8>, FileParamsView)>::empty();
        assert(row_map(none) =~= readable_files(listing, n));
        lemma_sorted_rows::<FileName, FileParamsView>(none);
    } else {
        lemma_found_rows(listing, n - 1);
        let before = sorted_rows::<FileName, FileParamsView>(readable_files(listing, n - 1));
        let entry = listing[n - 1];
        match name_params(entry.name@, entry.shown@) {
            Ok(params) => if is_metric_entry(entry) {
                if row_map(before).dom().contains(entry.name@) {
                    let i = row_with(before, entry.name@);
                    assert(0 <= i < before.len() && before[i].0 == entry.name@);
                    lemma_update_row::<FileName, FileParamsView>(before, i, params);
                    lemma_sorted_rows::<FileName, FileParamsView>(
                        before.update(i, (before[i].0, params)),
                    );
                } else {
                    let pos = law_key_has_place::<FileName, FileParamsView>(
                        before,
                        entry.name@,
                        params,
                    );
                    lemma_sorted_rows::<FileName, FileParamsView>(
                        before.insert(pos, (entry.name@, params)),
                    );
                }
            },
            Err(_) => {},
        }
    }
}

/// A pass over one more file keeps that file in mind, or forgets it and counts it, and
/// does with the others what it does without that file.
proof fn lemma_pass_with(
    cache: Map<Seq<u8>, CachedFileView>,
    found: Seq<(Seq<u8>, FileParamsView)>,
    events: Map<Seq<u8>, EventView>,
    pos: int,
    name: Seq<u8>,
    params: FileParamsView,
    after: Option<CachedFileView>,
    n: int,
)
    requires
        0 <= pos <= n <= found.len(),
        params.name == name,
        forall|i: int| 0 <= i < found.len() ==> (#[trigger] found[i]).1.name != name,
        file_after(cache, params, events[name]) == after,
    ensures
        ({
            let more = found.insert(pos, (name, params));
            let with = refresh_pass(cache, found_params(more), found_events(more, events), n + 1);
            let without = refresh_pass(cache, found_params(found), found_events(found, events), n);
            match after {
                Some(file) => {
                    &&& with.files == without.files.insert(name, file)
                    &&& with.failures == without.failures
                },
                None => {
                    &&& with.files == without.files.remove(name)
                    &&& with.failures.len() == without.failures.len() + 1
                },
            }
        }),
    decreases n,
{
    let more = found.insert(pos, (name, params));
    let ps = found_params(found);
    let es = found_events(found, events);
    let more_ps = found_params(more);
    let more_es = found_events(more, events);
    if n == pos {
        assert forall|i: int| 0 <= i < n implies ps[i] == more_ps[i] && es[i] == more_es[i] by {
            assert(more[i] == found[i]);
        }
        lemma_pass_same(cache, ps, es, more_ps, more_es, n);
        lemma_pass_leaves(cache, found, events, name, n);
        assert(more[n] == (name, params));
        assert(more_ps[n] == params && more_es[n] == events[name]);
    } else {
        lemma_pass_with(cache, found, events, pos, name, params, after, n - 1);
        assert(more[n] == found[n - 1]);
        assert(more_ps[n] == ps[n - 1] && more_es[n] == es[n - 1]);
        let without = refresh_pass(cache, ps, es, n - 1);
        let with = refresh_pass(cache, more_ps, more_es, n);
        let file = ps[n - 1];
        assert(file.name != name) by {
            assert(found[n - 1].1.name != name);
        }
        assert(file_after(with.files, file, es[n - 1]) == file_after(
            without.files,
            file,
            es[n - 1],
        ));
        let old = without.files;
        match (file_after(old, file, es[n - 1]), after) {
            (Some(new), Some(extra)) => {
                assert(old.insert(name, extra).insert(file.name, new) =~= old.insert(
                    file.name,
                    new,
                ).insert(name, extra));
            },
            (Some(new), None) => {
                assert(old.remove(name).insert(file.name, new) =~= old.insert(
                    file.name,
                    new,
                ).remove(name));
            },
            (None, Some(extra)) => {
                assert(old.insert(name, extra).remove(file.name) =~= old.remove(
                    file.name,
                ).insert(name, extra));
            },
            (None, None) => {
                assert(old.remove(name).remove(file.name) =~= old.remove(file.name).remove(name));
            },
        }
    }
}

/// A pass leaves a file alone that is not among those that were found.
proof fn lemma_pass_leaves(
    cache: Map<Seq<u8>, CachedFileView>,
    found: Seq<(Seq<u8>, FileParamsView)>,
    events: Map<Seq<u8>, EventView>,
    name: Seq<u8>,
    n: int,
)
    requires
        0 <= n <= found.len(),
        forall|i: int| 0 <= i < found.len() ==> (#[trigger] found[i]).1.name != name,
    ensures
        ({
            let files = refresh_pass(
                cache,
                found_params(found),
                found_events(found, events),
                n,
            ).files;
            &&& files.dom().contains(name) == cache.dom().contains(name)
            &&& files[name] == cache[name]
        }),
    decreases n,
{
    if n > 0 {
        lemma_pass_leaves(cache, found, events, name, n - 1);
        assert(found[n - 1].1.name != name);
    }
}

proof fn lemma_pass_same(
    cache: Map<Seq<u8>, CachedFileView>,
    params: Seq<FileParamsView>,
    events: Seq<EventView>,
    other_params: Seq<FileParamsView>,
    other_events: Seq<EventView>,
    n: int,
)
    requires
        forall|i: int| 0 <= i < n ==> params[i] == other_params[i] && events[i] == other_events[i],
    ensures
        refresh_pass(cache, other_params, other_events, n) == refresh_pass(
            cache,
            params,
            events,
            n,
        ),
    decreases n,
{
    if n > 0 {
        lemma_pass_same(cache, params, events, other_params, other_events, n - 1);
        assert(params[n - 1] == other_params[n - 1] && events[n - 1] == other_events[n - 1]);
    }
}

/// The rows of a map under the names that were found can be put in order.
proof fn lemma_kept_rows(
    found: Seq<(Seq<u8>, FileParamsView)>,
    files: Map<Seq<u8>, CachedFileView>,
) -> (rows: Seq<(Seq<u8>, CachedFileView)>)
    requires
        in_order::<FileName, FileParamsView>(found),
    ensures
        in_order::<FileName, CachedFileView>(rows),
        row_map(rows) == files.restrict(row_map(found).dom()),
    decreases found.len(),
{
    if found.len() == 0 {
        let none = Seq::<(Seq<u8>, CachedFileView)>::empty();
        assert(row_map(none) =~= files.restrict(row_map(found).dom()));
        none
    } else {
        let init = found.drop_last();
        let name = found.last().0;
        let rows = lemma_kept_rows(init, files);
        assert forall|k: Seq<u8>| #[trigger] row_map(found).dom().contains(k) <==> (k == name
            || row_map(init).dom().contains(k)) by {
            if row_map(init).dom().contains(k) {
                let i = row_with(init, k);
                assert(found[i].0 == k);
            }
            if row_map(found).dom().contains(k) {
                let i = row_with(found, k);
                assert(found[i].0 == k);
                if i < init.len() {
                    assert(init[i].0 == k);
                }
            }
            assert(found[found.len() - 1].0 == name);
        }
        if files.dom().contains(name) && !row_map(init).dom().contains(name) {
            let pos = law_key_has_place::<FileName, CachedFileView>(rows, name, files[name]);
            let more = rows.insert(pos, (name, files[name]));
            assert(row_map(more) =~= files.restrict(row_map(found).dom()));
            more
        } else {
            assert(row_map(rows) =~= files.restrict(row_map(found).dom()));
            rows
        }
    }
}

/// Two files agree in their header and in every byte that is in use, and have room for
/// those bytes.
pub open spec fn same_in_use(a: Seq<u8>, b: Seq<u8>) -> bool {
    &&& HEADER_SIZE <= a.len() && used_of(a) <= a.len()
    &&& HEADER_SIZE <= b.len() && used_of(a) <= b.len()
    &&& forall|i: int| 0 <= i < HEADER_SIZE || 0 <= i < used_of(a) ==> a[i] == b[i]
}

/// A scrape cannot tell these apart: they are the same, or differ in bytes that are not
/// in use, or are both of an unknown version.
pub open spec fn alike(a: Option<Seq<u8>>, b: Option<Seq<u8>>) -> bool {
    a == b || match (a, b) {
        (Some(x), Some(y)) => same_in_use(x, y) || (passed_over(x) && passed_over(y)),
        _ => false,
    }
}

/// Bytes that are not in use, and whatever a file of an unknown version holds, leave a
/// scrape as it is: what is known of every key, the files that are skipped, and so
/// the text.
pub proof fn law_unread_bytes_leave_scrape(
    files: Seq<(Seq<u8>, CachedFileView)>,
    maps: Seq<Option<Seq<u8>>>,
    other_maps: Seq<Option<Seq<u8>>>,
    n: int,
)
    requires
        0 <= n <= files.len(),
        files.len() == maps.len() == other_maps.len(),
        forall|i: int| 0 <= i < n ==> places_fit((#[trigger] files[i]).1.entries),
        forall|i: int| 0 <= i < n ==> alike(#[trigger] maps[i], other_maps[i]),
    ensures
        ({
            let a = scraped(files, maps, n);
            let b = scraped(files, other_maps, n);
            &&& a.known == b.known
            &&& a.failures == b.failures
            &&& a.files == b.files
            &&& forall|values: Seq<Seq<char>>, skipped: int| #[trigger]
                scrape_text(a.known, values, skipped + a.failures.len()) == scrape_text(
                    b.known,
                    values,
                    skipped + b.failures.len(),
                )
        }),
    decreases n,
{
    if n > 0 {
        law_unread_bytes_leave_scrape(files, maps, other_maps, n - 1);
        assert(alike(maps[n - 1], other_maps[n - 1]));
        assert(places_fit(files[n - 1].1.entries));
        if maps[n - 1] != other_maps[n - 1] {
            let x = maps[n - 1].unwrap();
            let y = other_maps[n - 1].unwrap();
            if same_in_use(x, y) {
                lemma_refreshed_same(files[n - 1].1, x, y);
                let file = refreshed(files[n - 1].1, x).0;
                lemma_file_merged_same(scraped(files, maps, n - 1).known, file, x, y);
            }
        }
    }
}

proof fn lemma_refreshed_same(file: CachedFileView, a: Seq<u8>, b: Seq<u8>)
    requires
        same_in_use(a, b),
        places_fit(file.entries),
    ensures
        refreshed(file, b) == refreshed(file, a),
        used_of(b) == used_of(a),
        passed_over(b) == passed_over(a),
        forall|i: int|
            0 <= i < refreshed(file, a).0.entries.len() ==> (#[trigger] refreshed(
                file,
                a,
            ).0.entries[i]).value_at >= 0,
{
    assert(a.subrange(0, 4) =~= b.subrange(0, 4));
    assert(a.subrange(4, 8) =~= b.subrange(4, 8));
    let used = used_of(a);
    let start = walk_start(file, used);
    lemma_scan_same(a, b, start, used);
    lemma_scan_bounds(a, start, used);
}

/// A file is merged by the bytes that are in use.
proof fn lemma_file_merged_same(
    known: Map<EntryKeyView, MetaView>,
    file: CachedFileView,
    a: Seq<u8>,
    b: Seq<u8>,
)
    requires
        same_in_use(a, b),
        forall|i: int| 0 <= i < file.entries.len() ==> (#[trigger] file.entries[i]).value_at >= 0,
    ensures
        merged_entries(known, file.params, a, used_of(a), file.entries) == merged_entries(
            known,
            file.params,
            b,
            used_of(a),
            file.entries,
        ),
{
    let used = used_of(a);
    assert forall|i: int|
        0 <= i < file.entries.len() && (#[trigger] file.entries[i]).value_at + 8
            <= used implies value_at(a, file.entries[i].value_at) == value_at(
        b,
        file.entries[i].value_at,
    ) by {
        let at = file.entries[i].value_at;
        assert(a.subrange(at, at + 8) =~= b.subrange(at, at + 8));
    }
    lemma_merged_same(known, file.params, a, b, used, file.entries);
}

/// A file of an unknown version might as well not be there: a scrape without it knows
/// the same of every key and skips the same files.
pub proof fn law_unknown_version_left_out(
    files: Seq<(Seq<u8>, CachedFileView)>,
    maps: Seq<Option<Seq<u8>>>,
    at: int,
    n: int,
)
    requires
        files.len() == maps.len(),
        0 <= at < n <= files.len(),
        maps[at] is Some,
        passed_over(maps[at].unwrap()),
    ensures
        ({
            let all = scraped(files, maps, n);
            let rest = scraped(files.remove(at), maps.remove(at), n - 1);
            all.known == rest.known && all.failures == rest.failures
        }),
    decreases n,
{
    let fewer = files.remove(at);
    let fewer_maps = maps.remove(at);
    if n == at + 1 {
        lemma_scraped_same(files, maps, fewer, fewer_maps, at);
    } else {
        law_unknown_version_left_out(files, maps, at, n - 1);
        assert(fewer[n - 2] == files[n - 1]);
        assert(fewer_maps[n - 2] == maps[n - 1]);
    }
}

/// One more file that is kept in mind stands among the others, and leaves them as they
/// are.
proof fn lemma_one_more_kept(
    cache: Map<Seq<u8>, CachedFileView>,
    dir: DirView,
    k: int,
    entry: DirEntry,
    file: CachedFileView,
) -> (r: (Seq<(Seq<u8>, CachedFileView)>, int))
    requires
        0 <= k <= dir.listing.len(),
        is_metric_entry(entry),
        name_params(entry.name@, entry.shown@) is Ok,
        file_after(cache, name_params(entry.name@, entry.shown@)->Ok_0, dir.events[entry.name@])
            == Some(file),
        forall|i: int|
            0 <= i < dir.listing.len() ==> (#[trigger] dir.listing[i]).name@ != entry.name@,
    ensures
        ({
            let without = dir_scraped(cache, dir);
            let with = dir_scraped(cache, DirView { listing: dir.listing.insert(k, entry), ..dir });
            let (kept, place) = r;
            let more = kept.insert(place, (entry.name@, file));
            let files = looked_at(more, dir.looks);
            let maps = looked_maps(more, dir.looks);
            let all = scraped(files, maps, more.len() as int);
            let rest = scraped(files.remove(place), maps.remove(place), kept.len() as int);
            &&& 0 <= place <= kept.len()
            &&& with.files == all.files && without.files == rest.files
            &&& with.known == all.known && without.known == rest.known
            &&& with.errors - all.failures.len() == without.errors - rest.failures.len()
        }),
{
    let listing = dir.listing;
    let name = entry.name@;
    let params = name_params(name, entry.shown@)->Ok_0;
    let n = listing.len() as int;
    lemma_listed(listing, k, entry, n);
    lemma_found_rows(listing, n);
    lemma_found_by_name(listing, n);
    lemma_listed_names(listing, n, name);
    let found = found_rows(listing);
    let pos = law_key_has_place::<FileName, FileParamsView>(found, name, params);
    let found_more = found.insert(pos, (name, params));
    lemma_sorted_rows::<FileName, FileParamsView>(found_more);
    assert(found_rows(listing.insert(k, entry)) == found_more);
    assert forall|i: int| 0 <= i < found.len() implies (#[trigger] found[i]).1.name != name by {
        lemma_row_map::<FileName, FileParamsView>(found, i);
    }
    lemma_pass_with(
        cache,
        found,
        dir.events,
        pos,
        name,
        params,
        Some(file),
        found.len() as int,
    );
    let events = found_events(found, dir.events);
    let pass = refresh_pass(cache, found_params(found), events, found.len() as int);
    let kept = lemma_kept_rows(found, pass.files);
    lemma_sorted_rows::<FileName, CachedFileView>(kept);
    let place = law_key_has_place::<FileName, CachedFileView>(kept, name, file);
    let kept_more = kept.insert(place, (name, file));
    assert(row_map(kept_more) =~= pass.files.insert(name, file).restrict(
        row_map(found_more).dom(),
    ));
    lemma_sorted_rows::<FileName, CachedFileView>(kept_more);
    let files = looked_at(kept_more, dir.looks);
    let maps = looked_maps(kept_more, dir.looks);
    assert(files.remove(place) =~= looked_at(kept, dir.looks));
    assert(maps.remove(place) =~= looked_maps(kept, dir.looks));
    (kept, place)
}

/// One more file of an unknown version changes nothing of the text of a scrape, neither
/// the lines of the metrics nor the number of files that were skipped.
pub proof fn law_unknown_version_file_unseen(
    cache: Map<Seq<u8>, CachedFileView>,
    dir: DirView,
    k: int,
    entry: DirEntry,
    identity: Option<FileIdentity>,
    map: Seq<u8>,
    later: Seq<u8>,
)
    requires
        0 <= k <= dir.listing.len(),
        is_metric_entry(entry),
        name_params(entry.name@, entry.shown@) is Ok,
        dir.events[entry.name@] == (EventView::Opened { identity, map }),
        passed_over(map),
        dir.looks[entry.name@].map == Some(later),
        passed_over(later),
        forall|i: int|
            0 <= i < dir.listing.len() ==> (#[trigger] dir.listing[i]).name@ != entry.name@,
    ensures
        ({
            let without = dir_scraped(cache, dir);
            let with = dir_scraped(cache, DirView { listing: dir.listing.insert(k, entry), ..dir });
            &&& with.known == without.known
            &&& with.errors == without.errors
            &&& forall|values: Seq<Seq<char>>| #[trigger]
                scrape_text(with.known, values, with.errors) == scrape_text(
                    without.known,
                    values,
                    without.errors,
                )
        }),
{
    let params = name_params(entry.name@, entry.shown@)->Ok_0;
    let file = refreshed(unread_file(params, identity, map.len() as usize), map).0;
    let (kept, place) = lemma_one_more_kept(cache, dir, k, entry, file);
    let more = kept.insert(place, (entry.name@, file));
    assert(more[place] == (entry.name@, file));
    law_unknown_version_left_out(
        looked_at(more, dir.looks),
        looked_maps(more, dir.looks),
        place,
        more.len() as int,
    );
}

/// One file that a look at it spoils, because it cannot be mapped or because what it
/// holds has become unusable since, changes nothing of a scrape but the number of
/// files that were skipped, which is one more than without it.
pub proof fn law_spoilt_file_counts_once(
    cache: Map<Seq<u8>, CachedFileView>,
    dir: DirView,
    k: int,
    entry: DirEntry,
    file: CachedFileView,
)
    requires
        0 <= k <= dir.listing.len(),
        is_metric_entry(entry),
        name_params(entry.name@, entry.shown@) is Ok,
        file_after(cache, name_params(entry.name@, entry.shown@)->Ok_0, dir.events[entry.name@])
            == Some(file),
        match dir.looks[entry.name@].map {
            None => true,
            Some(map) => refreshed(looked(file, dir.looks[entry.name@]), map).1 is Some,
        },
        forall|i: int|
            0 <= i < dir.listing.len() ==> (#[trigger] dir.listing[i]).name@ != entry.name@,
    ensures
        ({
            let without = dir_scraped(cache, dir);
            let with = dir_scraped(cache, DirView { listing: dir.listing.insert(k, entry), ..dir });
            &&& with.files == without.files
            &&& with.known == without.known
            &&& with.errors == without.errors + 1
            &&& forall|values: Seq<Seq<char>>| #[trigger]
                scrape_text(with.known, values, with.errors) == rendered(
                    export_rows(rows_in_order(without.known), values),
                ) + errors_text(without.errors + 1)
        }),
{
    let (kept, place) = lemma_one_more_kept(cache, dir, k, entry, file);
    let more = kept.insert(place, (entry.name@, file));
    let files = looked_at(more, dir.looks);
    assert(more[place] == (entry.name@, file));
    law_failed_file_isolated(
        files,
        looked_maps(more, dir.looks),
        place,
        more.len() as int,
    );
}

/// A file that is not looked at again before it is read is read as it is known; one that is
/// and has another length or identity by that look is read from its start.
pub proof fn law_looked(file: CachedFileView, look: LookView)
    ensures
        look.seen is None ==> looked(file, look) == file,
        look.seen matches Some((len, identity)) ==> {
            let after = looked(file, look);
            &&& len == file.map_len && identity == file.identity ==> after == file
            &&& len != file.map_len || identity != file.identity ==> after.parsed_used == 8
                && after.entries.len() == 0 && after.map_len == len && after.identity == identity
        },
{
}

} // verus!
