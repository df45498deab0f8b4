//! Discovery: scanning sources for skill bundles.
//!
//! The filesystem is injected: the caller lists a source directory and
//! reports, for each immediate entry, whether it is a directory holding the
//! `SKILL.md` marker document. Discovery turns those observations into
//! ephemeral [`Skill`] records.

use vstd::prelude::*;
use crate::config::{Config, Source, SourceView};

verus! {

/// The path `dir/name`.
pub open spec fn join_path(dir: Seq<char>, name: Seq<char>) -> Seq<char> {
    dir + seq!['/'] + name
}

/// The final path component: the longest suffix holding no `'/'`.
pub open spec fn basename(p: Seq<char>) -> Seq<char>
    decreases p.len(),
{
    if p.len() == 0 {
        Seq::<char>::empty()
    } else if p.last() == '/' {
        Seq::<char>::empty()
    } else {
        basename(p.drop_last()).push(p.last())
    }
}

/// If `p` holds no `'/'`, its basename is `p` itself.
proof fn lemma_basename_no_slash(p: Seq<char>)
    requires
        forall|j: int| 0 <= j < p.len() ==> p[j] != '/',
    ensures
        basename(p) == p,
    decreases p.len(),
{
    if p.len() > 0 {
        lemma_basename_no_slash(p.drop_last());
        assert(basename(p) =~= p);
    } else {
        assert(basename(p) =~= p);
    }
}

/// If `p[i]` is the last `'/'` in `p`, the basename is everything after it.
proof fn lemma_basename_after_slash(p: Seq<char>, i: int)
    requires
        0 <= i < p.len(),
        p[i] == '/',
        forall|j: int| i < j < p.len() ==> p[j] != '/',
    ensures
        basename(p) == p.subrange(i + 1, p.len() as int),
    decreases p.len(),
{
    if i == p.len() - 1 {
        assert(basename(p) =~= p.subrange(i + 1, p.len() as int));
    } else {
        lemma_basename_after_slash(p.drop_last(), i);
        assert(p.drop_last().subrange(i + 1, p.len() - 1) =~= p.subrange(i + 1, p.len() - 1));
        assert(basename(p) =~= p.subrange(i + 1, p.len() as int));
    }
}

/// Joins a directory path and an entry name with `'/'`.
pub fn join_path_exec(dir: &str, name: &str) -> (r: String)
    ensures
        r@ == join_path(dir@, name@),
{
    proof {
        reveal_strlit("/");
    }
    let mut r = String::from_str(dir);
    r.append("/");
    r.append(name);
    proof {
        assert(r@ =~= join_path(dir@, name@));
    }
    r
}

/// The final path component of `p`: the suffix after the last `'/'`, or all
/// of `p` if it holds none.
pub fn basename_exec(p: &str) -> (r: String)
    ensures
        r@ == basename(p@),
{
    let n = p.unicode_len();
    let mut start: usize = 0;
    let mut i: usize = 0;
    while i < n
        invariant
            n == p@.len(),
            0 <= start <= i <= n,
            start > 0 ==> p@[start - 1] == '/',
            forall|j: int| start <= j < i ==> p@[j] != '/',
        decreases n - i,
    {
        if p.get_char(i) == '/' {
            start = i + 1;
        }
        i += 1;
    }
    let tail = p.substring_char(start, n);
    proof {
        if start == 0 {
            lemma_basename_no_slash(p@);
        } else {
            lemma_basename_after_slash(p@, start - 1);
        }
    }
    String::from_str(tail)
}

/// An ephemeral record of one discovered bundle: never persisted, rebuilt by
/// every discovery pass.
#[derive(Clone)]
pub struct Skill {
    /// The bundle's directory name.
    pub name: String,
    /// Identifier of the originating source: the source path's basename.
    pub source_name: String,
    /// Absolute path of the bundle directory on its source.
    pub path: String,
}

/// Ghost image of a [`Skill`].
pub struct SkillView {
    pub name: Seq<char>,
    pub source_name: Seq<char>,
    pub path: Seq<char>,
}

impl View for Skill {
    type V = SkillView;

    open spec fn view(&self) -> SkillView {
        SkillView { name: self.name@, source_name: self.source_name@, path: self.path@ }
    }
}

impl DeepView for Skill {
    type V = SkillView;

    open spec fn deep_view(&self) -> SkillView {
        self@
    }
}

/// One immediate entry of a scanned source directory, as the caller observed
/// it: its name, whether it is a directory, and whether the marker document
/// `SKILL.md` exists and is readable directly inside it.
#[derive(Clone)]
pub struct ScanEntry {
    pub name: String,
    pub is_dir: bool,
    pub has_marker: bool,
}

/// Ghost image of a [`ScanEntry`].
pub struct ScanEntryView {
    pub name: Seq<char>,
    pub is_dir: bool,
    pub has_marker: bool,
}

impl View for ScanEntry {
    type V = ScanEntryView;

    open spec fn view(&self) -> ScanEntryView {
        ScanEntryView { name: self.name@, is_dir: self.is_dir, has_marker: self.has_marker }
    }
}

impl DeepView for ScanEntry {
    type V = ScanEntryView;

    open spec fn deep_view(&self) -> ScanEntryView {
        self@
    }
}

/// What one scan of a source directory observed. A source whose directory is
/// missing or unreadable is reported with `readable == false`.
#[derive(Clone)]
pub struct SourceScan {
    pub readable: bool,
    pub entries: Vec<ScanEntry>,
}

/// Ghost image of a [`SourceScan`].
pub struct SourceScanView {
    pub readable: bool,
    pub entries: Seq<ScanEntryView>,
}

impl View for SourceScan {
    type V = SourceScanView;

    open spec fn view(&self) -> SourceScanView {
        SourceScanView { readable: self.readable, entries: self.entries.deep_view() }
    }
}

impl DeepView for SourceScan {
    type V = SourceScanView;

    open spec fn deep_view(&self) -> SourceScanView {
        self@
    }
}

/// The skill that a qualifying entry of a source directory denotes.
pub open spec fn entry_skill(source_path: Seq<char>, e: ScanEntryView) -> SkillView {
    SkillView {
        name: e.name,
        source_name: basename(source_path),
        path: join_path(source_path, e.name),
    }
}

/// The skills denoted by the qualifying entries (directories holding the
/// marker) of a listing, in listing order.
pub open spec fn entries_skills(source_path: Seq<char>, entries: Seq<ScanEntryView>) -> Seq<
    SkillView,
>
    decreases entries.len(),
{
    if entries.len() == 0 {
        Seq::<SkillView>::empty()
    } else {
        let rest = entries_skills(source_path, entries.drop_last());
        let e = entries.last();
        if e.is_dir && e.has_marker {
            rest.push(entry_skill(source_path, e))
        } else {
            rest
        }
    }
}

/// The skills one source scan yields: none at all if the source directory
/// could not be read.
pub open spec fn source_skills(source_path: Seq<char>, scan: SourceScanView) -> Seq<SkillView> {
    if scan.readable {
        entries_skills(source_path, scan.entries)
    } else {
        Seq::<SkillView>::empty()
    }
}

/// The concatenation of every source's skills, in source order. Duplicate
/// names are kept: discovery is purely descriptive, collision resolution is
/// consolidation's job.
pub open spec fn all_skills(sources: Seq<SourceView>, scans: Seq<SourceScanView>) -> Seq<SkillView>
    decreases sources.len(),
{
    if sources.len() == 0 || scans.len() == 0 {
        Seq::<SkillView>::empty()
    } else {
        all_skills(sources.drop_last(), scans.drop_last()) + source_skills(
            sources.last().path,
            scans.last(),
        )
    }
}

/// Whether some source scan observed the marker document at `sk.path`: the
/// scan of source `i` was readable and listed a directory entry holding the
/// marker whose skill record is `sk`.
pub open spec fn marker_observed(
    sources: Seq<SourceView>,
    scans: Seq<SourceScanView>,
    sk: SkillView,
) -> bool {
    exists|i: int, j: int|
        0 <= i < sources.len() && 0 <= j < scans[i].entries.len() && scans[i].readable
            && scans[i].entries[j].is_dir && scans[i].entries[j].has_marker && sk == entry_skill(
            sources[i].path,
            scans[i].entries[j],
        )
}

proof fn lemma_entries_skills_valid(source_path: Seq<char>, entries: Seq<ScanEntryView>, k: int)
    requires
        0 <= k < entries_skills(source_path, entries).len(),
    ensures
        exists|j: int|
            0 <= j < entries.len() && entries[j].is_dir && entries[j].has_marker
                && entries_skills(source_path, entries)[k] == entry_skill(source_path, entries[j]),
    decreases entries.len(),
{
    let out = entries_skills(source_path, entries);
    let rest = entries_skills(source_path, entries.drop_last());
    let e = entries.last();
    if e.is_dir && e.has_marker && k == rest.len() {
        let j = entries.len() - 1;
        assert(0 <= j < entries.len() && entries[j].is_dir && entries[j].has_marker && out[k]
            == entry_skill(source_path, entries[j]));
    } else {
        lemma_entries_skills_valid(source_path, entries.drop_last(), k);
        let j = choose|j: int|
            0 <= j < entries.drop_last().len() && entries.drop_last()[j].is_dir
                && entries.drop_last()[j].has_marker && rest[k] == entry_skill(
                source_path,
                entries.drop_last()[j],
            );
        assert(0 <= j < entries.len() && entries[j].is_dir && entries[j].has_marker && out[k]
            == entry_skill(source_path, entries[j]));
    }
}

/// Discovery validity: every skill in a discovery result arises from a
/// directory entry in which the scan observed the marker document, so
/// `<skill.path>/SKILL.md` existed and was readable at the moment of the
/// scan.
pub proof fn lemma_discovery_validity(
    sources: Seq<SourceView>,
    scans: Seq<SourceScanView>,
    k: int,
)
    requires
        sources.len() == scans.len(),
        0 <= k < all_skills(sources, scans).len(),
    ensures
        marker_observed(sources, scans, all_skills(sources, scans)[k]),
    decreases sources.len(),
{
    let out = all_skills(sources, scans);
    let rest = all_skills(sources.drop_last(), scans.drop_last());
    let last_part = source_skills(sources.last().path, scans.last());
    if k < rest.len() {
        lemma_discovery_validity(sources.drop_last(), scans.drop_last(), k);
        let (i, j) = choose|i: int, j: int|
            0 <= i < sources.drop_last().len() && 0 <= j < scans.drop_last()[i].entries.len()
                && scans.drop_last()[i].readable && scans.drop_last()[i].entries[j].is_dir
                && scans.drop_last()[i].entries[j].has_marker && rest[k] == entry_skill(
                sources.drop_last()[i].path,
                scans.drop_last()[i].entries[j],
            );
        assert(0 <= i < sources.len() && 0 <= j < scans[i].entries.len() && scans[i].readable
            && scans[i].entries[j].is_dir && scans[i].entries[j].has_marker && out[k]
            == entry_skill(sources[i].path, scans[i].entries[j]));
    } else {
        let kk = k - rest.len();
        assert(scans.last().readable);
        lemma_entries_skills_valid(sources.last().path, scans.last().entries, kk);
        let j = choose|j: int|
            0 <= j < scans.last().entries.len() && scans.last().entries[j].is_dir
                && scans.last().entries[j].has_marker && last_part[kk] == entry_skill(
                sources.last().path,
                scans.last().entries[j],
            );
        let i = sources.len() - 1;
        assert(0 <= i < sources.len() && 0 <= j < scans[i].entries.len() && scans[i].readable
            && scans[i].entries[j].is_dir && scans[i].entries[j].has_marker && out[k]
            == entry_skill(sources[i].path, scans[i].entries[j]));
    }
}

/// Empty-source tolerance: a source whose directory could not be read (it is
/// missing or unreadable) contributes exactly zero skills — discovery over
/// the whole configuration equals discovery with that source left out.
pub proof fn lemma_empty_source_tolerance(
    sources: Seq<SourceView>,
    scans: Seq<SourceScanView>,
    i: int,
)
    requires
        sources.len() == scans.len(),
        0 <= i < sources.len(),
        !scans[i].readable,
    ensures
        all_skills(sources, scans) == all_skills(sources.remove(i), scans.remove(i)),
    decreases sources.len(),
{
    if i == sources.len() - 1 {
        assert(sources.remove(i) =~= sources.drop_last());
        assert(scans.remove(i) =~= scans.drop_last());
        assert(source_skills(sources.last().path, scans.last()) =~= Seq::<SkillView>::empty());
        assert(all_skills(sources, scans) =~= all_skills(sources.drop_last(), scans.drop_last()));
    } else {
        lemma_empty_source_tolerance(sources.drop_last(), scans.drop_last(), i);
        assert(sources.remove(i).drop_last() =~= sources.drop_last().remove(i));
        assert(scans.remove(i).drop_last() =~= scans.drop_last().remove(i));
        assert(sources.remove(i).last() == sources.last());
        assert(scans.remove(i).last() == scans.last());
        assert(all_skills(sources.remove(i), scans.remove(i)) == all_skills(
            sources.drop_last().remove(i),
            scans.drop_last().remove(i),
        ) + source_skills(sources.last().path, scans.last()));
    }
}

/// Turns one source scan into skill records.
///
/// An unreadable source yields the empty vector, never an error.
pub fn discover_source(source: &Source, scan: &SourceScan) -> (skills: Vec<Skill>)
    ensures
        skills.deep_view() == source_skills(source@.path, scan@),
{
    let mut skills: Vec<Skill> = Vec::new();
    if !scan.readable {
        proof {
            assert(skills.deep_view() =~= source_skills(source@.path, scan@));
        }
        return skills;
    }
    let source_name = basename_exec(source.path.as_str());
    let n = scan.entries.len();
    let mut i: usize = 0;
    while i < n
        invariant
            n == scan.entries.len(),
            0 <= i <= n,
            scan.readable,
            source_name@ == basename(source@.path),
            skills.deep_view() == entries_skills(
                source@.path,
                scan.entries.deep_view().take(i as int),
            ),
        decreases n - i,
    {
        let e = &scan.entries[i];
        let ghost taken = scan.entries.deep_view().take(i + 1);
        proof {
            assert(taken.drop_last() =~= scan.entries.deep_view().take(i as int));
            assert(taken.last() == scan.entries.deep_view()[i as int]);
        }
        if e.is_dir && e.has_marker {
            let path = join_path_exec(source.path.as_str(), e.name.as_str());
            let sk = Skill { name: e.name.clone(), source_name: source_name.clone(), path };
            proof {
                assert(sk@ == entry_skill(source@.path, scan.entries.deep_view()[i as int]));
            }
            skills.push(sk);
            proof {
                assert(skills.deep_view() =~= entries_skills(source@.path, taken));
            }
        } else {
            proof {
                assert(skills.deep_view() =~= entries_skills(source@.path, taken));
            }
        }
        i += 1;
    }
    proof {
        assert(scan.entries.deep_view().take(n as int) =~= scan.entries.deep_view());
    }
    skills
}

/// Scans every configured source, in configuration order, and concatenates
/// the results. `scans[i]` must be the caller's listing of `sources[i]`.
pub fn discover_all(config: &Config, scans: &Vec<SourceScan>) -> (skills: Vec<Skill>)
    requires
        scans@.len() == config.sources@.len(),
    ensures
        skills.deep_view() == all_skills(config@.sources, scans.deep_view()),
{
    let mut skills: Vec<Skill> = Vec::new();
    let n = config.sources.len();
    let mut i: usize = 0;
    while i < n
        invariant
            n == config.sources@.len(),
            scans@.len() == n,
            0 <= i <= n,
            skills.deep_view() == all_skills(
                config@.sources.take(i as int),
                scans.deep_view().take(i as int),
            ),
        decreases n - i,
    {
        let mut chunk = discover_source(&config.sources[i], &scans[i]);
        let ghost pre = skills.deep_view();
        let ghost chunk_view = chunk.deep_view();
        skills.append(&mut chunk);
        proof {
            let srcs = config@.sources.take(i + 1);
            let scs = scans.deep_view().take(i + 1);
            assert(srcs.drop_last() =~= config@.sources.take(i as int));
            assert(scs.drop_last() =~= scans.deep_view().take(i as int));
            assert(srcs.last() == config@.sources[i as int]);
            assert(scs.last() == scans.deep_view()[i as int]);
            assert(skills.deep_view() =~= pre + chunk_view);
            assert(skills.deep_view() =~= all_skills(srcs, scs));
        }
        i += 1;
    }
    proof {
        assert(config@.sources.take(n as int) =~= config@.sources);
        assert(scans.deep_view().take(n as int) =~= scans.deep_view());
    }
    skills
}

} // verus!

