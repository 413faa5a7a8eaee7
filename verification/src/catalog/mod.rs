//! The application catalogue offered by the picker: curated applications,
//! installed Start Menu applications and anything currently producing audio,
//! ordered so the most relevant appear first.
use vstd::prelude::*;
use vstd::multiset::Multiset;
use vstd::string::*;

use crate::text::{before_ignoring_case, codes, ends_with, eq_ignore_case, has_suffix, lemma_seq_lt_asymmetric, lemma_seq_lt_irreflexive, lemma_seq_lt_total, lemma_seq_lt_transitive, less_ignoring_case, lowered, same_ignoring_case};

pub mod names;
pub mod platform;

verus! {

/// The weight of the first curated application; each later one weighs one less.
pub const CURATED_WEIGHT: i32 = 1_000_000;

/// The weight added to an application that is running or playing audio.
pub const RUNNING_WEIGHT: i32 = 1_000;

#[derive(Clone, Debug)]
pub struct AppEntry {
    pub executable: String,
    pub display: String,
    pub running: bool,
    pub weight: i32,
}

pub struct EntryView {
    pub executable: Seq<char>,
    pub display: Seq<char>,
    pub running: bool,
    pub weight: int,
}

impl View for AppEntry {
    type V = EntryView;

    open spec fn view(&self) -> EntryView {
        EntryView { executable: self.executable@, display: self.display@, running: self.running, weight: self.weight as int }
    }
}

pub open spec fn entries_view(v: Seq<AppEntry>) -> Seq<EntryView> {
    v.map_values(|e: AppEntry| e@)
}

/// Common applications surfaced at the top of the picker, highest weight
/// first: executable name and display name.
pub open spec fn curated_list() -> Seq<(Seq<char>, Seq<char>)> {
    seq![
        ("Discord.exe"@, "Discord"@),
        ("chrome.exe"@, "Google Chrome"@),
        ("msedge.exe"@, "Microsoft Edge"@),
        ("firefox.exe"@, "Mozilla Firefox"@),
        ("Spotify.exe"@, "Spotify"@),
        ("slack.exe"@, "Slack"@),
        ("ms-teams.exe"@, "Microsoft Teams"@),
        ("Teams.exe"@, "Microsoft Teams"@),
        ("vlc.exe"@, "VLC media player"@),
        ("obs64.exe"@, "OBS Studio"@),
        ("Zoom.exe"@, "Zoom"@),
        ("Telegram.exe"@, "Telegram"@),
        ("WhatsApp.exe"@, "WhatsApp"@),
        ("steam.exe"@, "Steam"@),
        ("EpicGamesLauncher.exe"@, "Epic Games Launcher"@),
        ("Battle.net.exe"@, "Battle.net"@),
        ("RobloxPlayerBeta.exe"@, "Roblox"@),
        ("VALORANT-Win64-Shipping.exe"@, "VALORANT"@),
        ("LeagueClient.exe"@, "League of Legends"@),
        ("League of Legends.exe"@, "League of Legends (game)"@),
        ("cs2.exe"@, "Counter-Strike 2"@),
        ("FortniteClient-Win64-Shipping.exe"@, "Fortnite"@),
        ("Overwatch.exe"@, "Overwatch"@),
        ("dota2.exe"@, "Dota 2"@),
        ("javaw.exe"@, "Minecraft (Java)"@),
        ("Minecraft.Windows.exe"@, "Minecraft"@),
        ("bg3.exe"@, "Baldur's Gate 3"@),
        ("eldenring.exe"@, "Elden Ring"@),
        ("GTA5.exe"@, "Grand Theft Auto V"@),
        ("Wow.exe"@, "World of Warcraft"@),
    ]
}

/// The curated applications, in order.
pub fn curated() -> (r: Vec<(&'static str, &'static str)>)
    ensures
        r@.map_values(|p: (&str, &str)| (p.0@, p.1@)) == curated_list(),
{
    let r = vec![
        ("Discord.exe", "Discord"),
        ("chrome.exe", "Google Chrome"),
        ("msedge.exe", "Microsoft Edge"),
        ("firefox.exe", "Mozilla Firefox"),
        ("Spotify.exe", "Spotify"),
        ("slack.exe", "Slack"),
        ("ms-teams.exe", "Microsoft Teams"),
        ("Teams.exe", "Microsoft Teams"),
        ("vlc.exe", "VLC media player"),
        ("obs64.exe", "OBS Studio"),
        ("Zoom.exe", "Zoom"),
        ("Telegram.exe", "Telegram"),
        ("WhatsApp.exe", "WhatsApp"),
        ("steam.exe", "Steam"),
        ("EpicGamesLauncher.exe", "Epic Games Launcher"),
        ("Battle.net.exe", "Battle.net"),
        ("RobloxPlayerBeta.exe", "Roblox"),
        ("VALORANT-Win64-Shipping.exe", "VALORANT"),
        ("LeagueClient.exe", "League of Legends"),
        ("League of Legends.exe", "League of Legends (game)"),
        ("cs2.exe", "Counter-Strike 2"),
        ("FortniteClient-Win64-Shipping.exe", "Fortnite"),
        ("Overwatch.exe", "Overwatch"),
        ("dota2.exe", "Dota 2"),
        ("javaw.exe", "Minecraft (Java)"),
        ("Minecraft.Windows.exe", "Minecraft"),
        ("bg3.exe", "Baldur's Gate 3"),
        ("eldenring.exe", "Elden Ring"),
        ("GTA5.exe", "Grand Theft Auto V"),
        ("Wow.exe", "World of Warcraft"),
    ];
    proof {
        assert(r@.map_values(|p: (&str, &str)| (p.0@, p.1@)) =~= curated_list());
    }
    r
}

/// The display name derived from an executable name: the name without a
/// trailing `.exe` or `.EXE`.
pub open spec fn display_of(executable: Seq<char>) -> Seq<char> {
    if has_suffix(executable, ".exe"@) {
        executable.take(executable.len() - ".exe"@.len())
    } else if has_suffix(executable, ".EXE"@) {
        executable.take(executable.len() - ".EXE"@.len())
    } else {
        executable
    }
}

/// Every application that may enter the catalogue, in the order in which
/// they are offered: curated ones, then installed ones, then the ones playing audio.
pub open spec fn candidates(installed: Seq<(Seq<char>, Seq<char>)>, audio: Seq<Seq<char>>) -> Seq<EntryView> {
    curated_list().map(|i: int, p: (Seq<char>, Seq<char>)| EntryView { executable: p.0, display: p.1, running: false, weight: CURATED_WEIGHT - i })
        + installed.map_values(|p: (Seq<char>, Seq<char>)| EntryView { executable: p.0, display: p.1, running: false, weight: 0 })
        + audio.map_values(|e: Seq<char>| EntryView { executable: e, display: display_of(e), running: false, weight: 0 })
}

/// Keeps the first application offered for each executable name, ASCII case ignored.
pub open spec fn first_per_executable(c: Seq<EntryView>) -> Seq<EntryView>
    decreases c.len(),
{
    if c.len() == 0 {
        Seq::empty()
    } else {
        let prev = first_per_executable(c.drop_last());
        if exists|j: int| 0 <= j < prev.len() && same_ignoring_case(#[trigger] prev[j].executable, c.last().executable) {
            prev
        } else {
            prev.push(c.last())
        }
    }
}

/// An application runs when the process list holds its lowercased
/// executable name, or when it plays audio (ASCII case ignored).
pub open spec fn is_running(executable: Seq<char>, running: Seq<Seq<char>>, audio: Seq<Seq<char>>) -> bool {
    ||| exists|i: int| 0 <= i < running.len() && codes(#[trigger] running[i]) == lowered(executable)
    ||| exists|i: int| 0 <= i < audio.len() && same_ignoring_case(#[trigger] audio[i], executable)
}

pub open spec fn mark(e: EntryView, running: Seq<Seq<char>>, audio: Seq<Seq<char>>) -> EntryView {
    if is_running(e.executable, running, audio) {
        EntryView { executable: e.executable, display: e.display, running: true, weight: e.weight + RUNNING_WEIGHT }
    } else {
        e
    }
}

/// The entries of the catalogue, before ordering.
pub open spec fn catalog_entries(audio: Seq<Seq<char>>, running: Seq<Seq<char>>, installed: Seq<(Seq<char>, Seq<char>)>) -> Seq<EntryView> {
    first_per_executable(candidates(installed, audio)).map_values(|e: EntryView| mark(e, running, audio))
}

/// No two entries have the same executable name, ASCII case ignored.
pub open spec fn one_per_executable(s: Seq<EntryView>) -> bool {
    forall|i: int, j: int|
        #![trigger s[i], s[j]]
        0 <= i < j < s.len() ==> !same_ignoring_case(s[i].executable, s[j].executable)
}

/// `a` comes strictly before `b`: it weighs more, or weighs the same and its
/// display name comes first with ASCII case ignored.
pub open spec fn ranks_before(a: EntryView, b: EntryView) -> bool {
    a.weight > b.weight || (a.weight == b.weight && before_ignoring_case(a.display, b.display))
}

/// No entry comes strictly before an entry listed ahead of it.
pub open spec fn catalog_order(s: Seq<EntryView>) -> bool {
    forall|i: int, j: int| #![trigger s[i], s[j]] 0 <= i < j < s.len() ==> !ranks_before(s[j], s[i])
}

/// Entries in catalogue order are sorted heaviest first, and entries of equal
/// weight by display name with ASCII case ignored: no entry weighs less than
/// one listed after it, and of two entries of equal weight the later one's
/// display name does not come first.
pub proof fn catalog_order_is_weight_then_display(s: Seq<EntryView>)
    requires
        catalog_order(s),
    ensures
        forall|i: int, j: int|
            #![trigger s[i], s[j]]
            0 <= i < j < s.len() ==> s[i].weight >= s[j].weight && (s[i].weight == s[j].weight
                ==> !before_ignoring_case(s[j].display, s[i].display)),
{
    assert forall|i: int, j: int| #![trigger s[i], s[j]] 0 <= i < j < s.len() implies s[i].weight >= s[j].weight && (
    s[i].weight == s[j].weight ==> !before_ignoring_case(s[j].display, s[i].display)) by {
        assert(!ranks_before(s[j], s[i]));
    }
}

proof fn lemma_ranks_before_transitive(a: EntryView, b: EntryView, c: EntryView)
    requires
        ranks_before(a, b),
        ranks_before(b, c),
    ensures
        ranks_before(a, c),
{
    if a.weight == b.weight && b.weight == c.weight {
        lemma_seq_lt_transitive(lowered(a.display), lowered(b.display), lowered(c.display));
    }
}

proof fn lemma_first_per_executable(c: Seq<EntryView>)
    ensures
        forall|i: int, j: int|
            #![trigger first_per_executable(c)[i], first_per_executable(c)[j]]
            0 <= i < j < first_per_executable(c).len() ==> !same_ignoring_case(
                first_per_executable(c)[i].executable,
                first_per_executable(c)[j].executable,
            ),
        forall|k: int| #![trigger c[k]] 0 <= k < c.len() ==> exists|i: int|
            0 <= i < first_per_executable(c).len() && same_ignoring_case(
                #[trigger] first_per_executable(c)[i].executable,
                c[k].executable,
            ),
    decreases c.len(),
{
    if c.len() > 0 {
        let d = c.drop_last();
        lemma_first_per_executable(d);
        let prev = first_per_executable(d);
        let f = first_per_executable(c);
        assert forall|k: int| #![trigger c[k]] 0 <= k < c.len() implies exists|i: int|
            0 <= i < f.len() && same_ignoring_case(#[trigger] f[i].executable, c[k].executable) by {
            if k < d.len() {
                assert(c[k] == d[k]);
                let i = choose|i: int| 0 <= i < prev.len() && same_ignoring_case(#[trigger] prev[i].executable, d[k].executable);
                assert(f[i] == prev[i]);
            } else if exists|j: int| 0 <= j < prev.len() && same_ignoring_case(#[trigger] prev[j].executable, c.last().executable) {
                let j = choose|j: int| 0 <= j < prev.len() && same_ignoring_case(#[trigger] prev[j].executable, c.last().executable);
                assert(f[j] == prev[j]);
            } else {
                assert(f[prev.len() as int] == c.last());
            }
        }
    }
}

/// The catalogue holds one entry per executable name, ASCII case ignored,
/// and every application offered, curated, installed or playing audio, has
/// an entry for its executable name.
pub proof fn catalog_lists_each_executable_once(
    audio: Seq<Seq<char>>,
    running: Seq<Seq<char>>,
    installed: Seq<(Seq<char>, Seq<char>)>,
)
    ensures
        ({
            let e = catalog_entries(audio, running, installed);
            let c = candidates(installed, audio);
            &&& forall|i: int, j: int|
                #![trigger e[i], e[j]]
                0 <= i < j < e.len() ==> !same_ignoring_case(e[i].executable, e[j].executable)
            &&& forall|k: int| #![trigger c[k]] 0 <= k < c.len() ==> exists|i: int|
                0 <= i < e.len() && same_ignoring_case(#[trigger] e[i].executable, c[k].executable)
        }),
{
    let c = candidates(installed, audio);
    let f = first_per_executable(c);
    let e = catalog_entries(audio, running, installed);
    lemma_first_per_executable(c);
    assert forall|i: int| 0 <= i < e.len() implies #[trigger] e[i].executable == f[i].executable by {}
    assert forall|i: int, j: int| 0 <= i < j < e.len() implies !same_ignoring_case(#[trigger] e[i].executable, #[trigger] e[j].executable) by {
        assert(e[i].executable == f[i].executable);
        assert(e[j].executable == f[j].executable);
    }
    assert forall|k: int| #![trigger c[k]] 0 <= k < c.len() implies exists|i: int|
        0 <= i < e.len() && same_ignoring_case(#[trigger] e[i].executable, c[k].executable) by {
        let i = choose|i: int| 0 <= i < f.len() && same_ignoring_case(#[trigger] f[i].executable, c[k].executable);
        assert(e[i].executable == f[i].executable);
    }
}

proof fn lemma_first_origin(c: Seq<EntryView>, i: int)
    requires
        0 <= i < first_per_executable(c).len(),
    ensures
        exists|k: int|
            0 <= k < c.len() && first_per_executable(c)[i] == #[trigger] c[k] && forall|j: int|
                0 <= j < k ==> !same_ignoring_case(#[trigger] c[j].executable, c[k].executable),
    decreases c.len(),
{
    let d = c.drop_last();
    let prev = first_per_executable(d);
    if i < prev.len() {
        lemma_first_origin(d, i);
        let k = choose|k: int|
            0 <= k < d.len() && first_per_executable(d)[i] == #[trigger] d[k] && forall|j: int|
                0 <= j < k ==> !same_ignoring_case(#[trigger] d[j].executable, d[k].executable);
        assert(c[k] == d[k]);
        assert forall|j: int| 0 <= j < k implies !same_ignoring_case(#[trigger] c[j].executable, c[k].executable) by {
            assert(c[j] == d[j]);
        }
        assert(first_per_executable(c)[i] == prev[i]);
    } else {
        let k = c.len() - 1;
        lemma_first_per_executable(d);
        assert(first_per_executable(c)[i] == c[k]);
        assert forall|j: int| 0 <= j < k implies !same_ignoring_case(#[trigger] c[j].executable, c[k].executable) by {
            if same_ignoring_case(c[j].executable, c[k].executable) {
                assert(c[j] == d[j]);
                let i2 = choose|i2: int| 0 <= i2 < prev.len() && same_ignoring_case(#[trigger] prev[i2].executable, d[j].executable);
                assert(same_ignoring_case(prev[i2].executable, c.last().executable));
            }
        }
    }
}

/// The executable name of a curated application, ASCII case ignored.
pub open spec fn is_curated(executable: Seq<char>) -> bool {
    exists|k: int| 0 <= k < curated_list().len() && same_ignoring_case(#[trigger] curated_list()[k].0, executable)
}

/// In the catalogue, every entry for a curated application weighs more than
/// every other entry, so curated applications come first: a curated entry
/// weighs at least the weight of the last curated application, any other at
/// most what running adds.
pub proof fn curated_entries_come_first(
    audio: Seq<Seq<char>>,
    running: Seq<Seq<char>>,
    installed: Seq<(Seq<char>, Seq<char>)>,
)
    ensures
        ({
            let e = catalog_entries(audio, running, installed);
            &&& forall|i: int| 0 <= i < e.len() && is_curated(#[trigger] e[i].executable) ==> e[i].weight >= CURATED_WEIGHT - (curated_list().len() - 1)
            &&& forall|i: int| 0 <= i < e.len() && !is_curated(#[trigger] e[i].executable) ==> e[i].weight <= RUNNING_WEIGHT
            &&& forall|i: int, j: int|
                #![trigger e[i], e[j]]
                0 <= i < e.len() && 0 <= j < e.len() && is_curated(e[i].executable) && !is_curated(e[j].executable) ==> e[i].weight > e[j].weight
        }),
{
    let c = candidates(installed, audio);
    let f = first_per_executable(c);
    let e = catalog_entries(audio, running, installed);
    let nc = curated_list().len() as int;
    assert(nc == 30);
    assert forall|i: int| 0 <= i < e.len() implies (is_curated(#[trigger] e[i].executable) ==> e[i].weight >= CURATED_WEIGHT - (nc - 1))
        && (!is_curated(e[i].executable) ==> e[i].weight <= RUNNING_WEIGHT) by {
        lemma_first_origin(c, i);
        let k = choose|k: int|
            0 <= k < c.len() && f[i] == #[trigger] c[k] && forall|j: int|
                0 <= j < k ==> !same_ignoring_case(#[trigger] c[j].executable, c[k].executable);
        assert(e[i].executable == f[i].executable);
        assert(e[i].weight == f[i].weight || e[i].weight == f[i].weight + RUNNING_WEIGHT);
        if k < nc {
            assert(c[k] == EntryView { executable: curated_list()[k].0, display: curated_list()[k].1, running: false, weight: CURATED_WEIGHT - k });
            assert(same_ignoring_case(curated_list()[k].0, e[i].executable));
        } else {
            assert(c[k].weight == 0);
            if is_curated(e[i].executable) {
                let m = choose|m: int| 0 <= m < nc && same_ignoring_case(#[trigger] curated_list()[m].0, e[i].executable);
                assert(c[m].executable == curated_list()[m].0);
                assert(!same_ignoring_case(c[m].executable, c[k].executable));
            }
        }
    }
}

/// Builds the catalogue from the applications playing audio, the running
/// process names (lowercase) and the installed applications (executable
/// name, display name): one entry per executable name, the first offered
/// kept, marked running and weighted up when running or playing, ordered by
/// weight and then by display name.
pub fn build_from(audio_playing: &[String], running: &[String], installed: &[(String, String)]) -> (r: Vec<AppEntry>)
    ensures
        catalog_order(entries_view(r@)),
        forall|i: int, j: int|
            #![trigger r@[i], r@[j]]
            0 <= i < j < r@.len() ==> r@[i].weight >= r@[j].weight && (r@[i].weight == r@[j].weight
                ==> !before_ignoring_case(r@[j].display@, r@[i].display@)),
        one_per_executable(entries_view(r@)),
        entries_view(r@).to_multiset() == catalog_entries(
            audio_playing@.map_values(|s: String| s@),
            running@.map_values(|s: String| s@),
            installed@.map_values(|p: (String, String)| (p.0@, p.1@)),
        ).to_multiset(),
{
    let ghost audio = audio_playing@.map_values(|s: String| s@);
    let ghost run = running@.map_values(|s: String| s@);
    let ghost inst = installed@.map_values(|p: (String, String)| (p.0@, p.1@));
    let ghost cands = candidates(inst, audio);
    let ghost nc: int = curated_list().len() as int;
    let ghost ni: int = inst.len() as int;
    let mut entries: Vec<AppEntry> = Vec::new();
    let list = curated();
    proof {
        assert(cands.take(0) =~= Seq::<EntryView>::empty());
        assert(entries_view(entries@) =~= Seq::<EntryView>::empty());
        assert(list@.len() == 30);
    }
    let mut i: usize = 0;
    while i < list.len()
        invariant
            i <= list@.len(),
            list@.len() == nc,
            nc == 30,
            list@.map_values(|p: (&str, &str)| (p.0@, p.1@)) == curated_list(),
            cands == candidates(inst, audio),
            entries_view(entries@) == first_per_executable(cands.take(i as int)),
            forall|j: int| 0 <= j < entries_view(entries@).len() ==> #[trigger] entries_view(entries@)[j].weight <= CURATED_WEIGHT,
        decreases list@.len() - i,
    {
        let (executable, display) = list[i];
        proof {
            assert(cands.take(i as int + 1).drop_last() == cands.take(i as int));
            assert(curated_list()[i as int] == (executable@, display@));
            assert(cands[i as int] == EntryView { executable: executable@, display: display@, running: false, weight: CURATED_WEIGHT - i });
        }
        insert(&mut entries, executable, display, CURATED_WEIGHT - i as i32);
        i = i + 1;
    }
    let mut k: usize = 0;
    while k < installed.len()
        invariant
            k <= installed@.len(),
            ni == installed@.len(),
            inst == installed@.map_values(|p: (String, String)| (p.0@, p.1@)),
            nc == 30,
            cands == candidates(inst, audio),
            entries_view(entries@) == first_per_executable(cands.take(nc + k)),
            forall|j: int| 0 <= j < entries_view(entries@).len() ==> #[trigger] entries_view(entries@)[j].weight <= CURATED_WEIGHT,
        decreases installed@.len() - k,
    {
        proof {
            assert(cands.take(nc + k + 1).drop_last() == cands.take(nc + k));
            assert(cands[nc + k] == EntryView { executable: inst[k as int].0, display: inst[k as int].1, running: false, weight: 0 });
        }
        insert(&mut entries, installed[k].0.as_str(), installed[k].1.as_str(), 0);
        k = k + 1;
    }
    let mut k: usize = 0;
    while k < audio_playing.len()
        invariant
            k <= audio_playing@.len(),
            ni == installed@.len(),
            audio == audio_playing@.map_values(|s: String| s@),
            nc == 30,
            cands == candidates(inst, audio),
            cands.len() == nc + ni + audio.len(),
            entries_view(entries@) == first_per_executable(cands.take(nc + ni + k)),
            forall|j: int| 0 <= j < entries_view(entries@).len() ==> #[trigger] entries_view(entries@)[j].weight <= CURATED_WEIGHT,
        decreases audio_playing@.len() - k,
    {
        let executable = audio_playing[k].as_str();
        let display = derive_display(executable);
        proof {
            assert(cands.take(nc + ni + k + 1).drop_last() == cands.take(nc + ni + k));
            assert(cands[nc + ni + k] == EntryView { executable: audio[k as int], display: display_of(audio[k as int]), running: false, weight: 0 });
        }
        insert(&mut entries, executable, display.as_str(), 0);
        k = k + 1;
    }
    proof {
        assert(cands.take(nc + ni + audio.len() as int) == cands);
    }
    let ghost firsts = entries_view(entries@);
    let ghost marked = firsts.map_values(|e: EntryView| mark(e, run, audio));
    let mut k: usize = 0;
    while k < entries.len()
        invariant
            k <= entries@.len(),
            entries@.len() == firsts.len(),
            audio == audio_playing@.map_values(|s: String| s@),
            run == running@.map_values(|s: String| s@),
            marked == firsts.map_values(|e: EntryView| mark(e, run, audio)),
            forall|j: int| 0 <= j < k ==> #[trigger] entries@[j]@ == marked[j],
            forall|j: int| k <= j < entries@.len() ==> #[trigger] entries@[j]@ == firsts[j],
            forall|j: int| 0 <= j < firsts.len() ==> #[trigger] firsts[j].weight <= CURATED_WEIGHT,
        decreases entries@.len() - k,
    {
        let live = is_live(entries[k].executable.as_str(), running, audio_playing);
        if live {
            let mut e = entries[k].clone_entry();
            proof {
                assert(entries@[k as int]@ == firsts[k as int]);
                assert(firsts[k as int].weight <= CURATED_WEIGHT);
                assert(e.weight as int == firsts[k as int].weight);
            }
            e.running = true;
            e.weight = e.weight + RUNNING_WEIGHT;
            entries.set(k, e);
        }
        k = k + 1;
    }
    proof {
        assert(entries_view(entries@) =~= marked);
        assert(marked == catalog_entries(audio, run, inst));
        catalog_lists_each_executable_once(audio, run, inst);
    }
    let r = order(entries);
    proof {
        let v = entries_view(r@);
        catalog_order_is_weight_then_display(v);
        assert forall|i: int, j: int| #![trigger r@[i], r@[j]] 0 <= i < j < r@.len() implies r@[i].weight >= r@[j].weight && (
        r@[i].weight == r@[j].weight ==> !before_ignoring_case(r@[j].display@, r@[i].display@)) by {
            assert(v[i] == r@[i]@ && v[j] == r@[j]@);
        }
    }
    r
}

/// Builds the catalogue for this platform, from the applications playing audio.
pub fn build(audio_playing: &[String]) -> (r: Vec<AppEntry>)
    ensures
        catalog_order(entries_view(r@)),
        forall|i: int, j: int|
            #![trigger r@[i], r@[j]]
            0 <= i < j < r@.len() ==> r@[i].weight >= r@[j].weight && (r@[i].weight == r@[j].weight
                ==> !before_ignoring_case(r@[j].display@, r@[i].display@)),
        one_per_executable(entries_view(r@)),
        entries_view(r@).to_multiset() == catalog_entries(
            audio_playing@.map_values(|s: String| s@),
            Seq::empty(),
            Seq::empty(),
        ).to_multiset(),
{
    let running = platform::running_processes();
    let installed = platform::installed_applications();
    proof {
        assert(running@.map_values(|s: String| s@) =~= Seq::<Seq<char>>::empty());
        assert(installed@.map_values(|p: (String, String)| (p.0@, p.1@)) =~= Seq::<(Seq<char>, Seq<char>)>::empty());
    }
    build_from(audio_playing, running.as_slice(), installed.as_slice())
}

impl AppEntry {
    fn clone_entry(&self) -> (r: Self)
        ensures
            r@ == self@,
    {
        AppEntry { executable: self.executable.clone(), display: self.display.clone(), running: self.running, weight: self.weight }
    }
}

/// The entries after offering `e`: unchanged when an entry has its
/// executable name (ASCII case ignored), else with `e` added at the end.
pub open spec fn inserted(s: Seq<EntryView>, e: EntryView) -> Seq<EntryView> {
    if exists|j: int| 0 <= j < s.len() && same_ignoring_case(#[trigger] s[j].executable, e.executable) {
        s
    } else {
        s.push(e)
    }
}

/// Offering the same application a second time changes nothing, and an
/// offer never changes the entries already there.
pub proof fn offering_twice_is_offering_once(s: Seq<EntryView>, e: EntryView)
    ensures
        inserted(inserted(s, e), e) == inserted(s, e),
        inserted(s, e).take(s.len() as int) == s,
{
    let t = inserted(s, e);
    if !exists|j: int| 0 <= j < s.len() && same_ignoring_case(#[trigger] s[j].executable, e.executable) {
        assert(t[s.len() as int] == e);
        assert(same_ignoring_case(t[s.len() as int].executable, e.executable));
    }
    assert(t.take(s.len() as int) =~= s);
}

/// Adds an application unless one with the same executable name, ASCII case
/// ignored, is there already.
fn insert(entries: &mut Vec<AppEntry>, executable: &str, display: &str, weight: i32)
    ensures
        entries_view(final(entries)@) == inserted(
            entries_view(old(entries)@),
            EntryView { executable: executable@, display: display@, running: false, weight: weight as int },
        ),
{
    let ghost before = entries_view(entries@);
    let mut j: usize = 0;
    while j < entries.len()
        invariant
            j <= entries@.len(),
            before == entries_view(entries@),
            forall|x: int| 0 <= x < j ==> !same_ignoring_case(#[trigger] before[x].executable, executable@),
        decreases entries@.len() - j,
    {
        if eq_ignore_case(entries[j].executable.as_str(), executable) {
            proof {
                assert(before[j as int].executable == entries@[j as int].executable@);
            }
            return;
        }
        j = j + 1;
    }
    entries.push(AppEntry { executable: executable.to_owned(), display: display.to_owned(), running: false, weight });
    proof {
        assert(entries_view(entries@) =~= before.push(EntryView { executable: executable@, display: display@, running: false, weight: weight as int }));
    }
}

/// Whether an application is running or playing audio.
fn is_live(executable: &str, running: &[String], audio_playing: &[String]) -> (r: bool)
    ensures
        r == is_running(executable@, running@.map_values(|s: String| s@), audio_playing@.map_values(|s: String| s@)),
{
    let ghost run = running@.map_values(|s: String| s@);
    let ghost audio = audio_playing@.map_values(|s: String| s@);
    let mut i: usize = 0;
    while i < running.len()
        invariant
            i <= running@.len(),
            run == running@.map_values(|s: String| s@),
            forall|x: int| 0 <= x < i ==> codes(#[trigger] run[x]) != lowered(executable@),
        decreases running@.len() - i,
    {
        if is_lowercase_of(running[i].as_str(), executable) {
            proof {
                assert(run[i as int] == running@[i as int]@);
            }
            return true;
        }
        i = i + 1;
    }
    let mut i: usize = 0;
    while i < audio_playing.len()
        invariant
            i <= audio_playing@.len(),
            run == running@.map_values(|s: String| s@),
            audio == audio_playing@.map_values(|s: String| s@),
            !(exists|x: int| 0 <= x < run.len() && codes(#[trigger] run[x]) == lowered(executable@)),
            forall|x: int| 0 <= x < i ==> !same_ignoring_case(#[trigger] audio[x], executable@),
        decreases audio_playing@.len() - i,
    {
        if eq_ignore_case(audio_playing[i].as_str(), executable) {
            proof {
                assert(audio[i as int] == audio_playing@[i as int]@);
            }
            return true;
        }
        i = i + 1;
    }
    false
}

/// Whether `lower` equals `s.to_ascii_lowercase()`.
fn is_lowercase_of(lower: &str, s: &str) -> (r: bool)
    ensures
        r == (codes(lower@) == lowered(s@)),
{
    let n = lower.unicode_len();
    let m = s.unicode_len();
    if n != m {
        proof {
            assert(codes(lower@).len() != lowered(s@).len());
        }
        return false;
    }
    let mut i: usize = 0;
    while i < n
        invariant
            n == lower@.len(),
            n == s@.len(),
            i <= n,
            forall|j: int| 0 <= j < i ==> #[trigger] codes(lower@)[j] == lowered(s@)[j],
        decreases n - i,
    {
        if lower.get_char(i) as u32 != crate::text::fold_char(s.get_char(i)) {
            proof {
                assert(codes(lower@)[i as int] != lowered(s@)[i as int]);
            }
            return false;
        }
        i = i + 1;
    }
    proof {
        assert(codes(lower@) =~= lowered(s@));
    }
    true
}

/// The display name derived from an executable name.
fn derive_display(executable: &str) -> (r: String)
    ensures
        r@ == display_of(executable@),
{
    proof {
        reveal_strlit(".exe");
        reveal_strlit(".EXE");
    }
    let n = executable.unicode_len();
    if ends_with(executable, ".exe") || ends_with(executable, ".EXE") {
        executable.substring_char(0, n - 4).to_owned()
    } else {
        executable.to_owned()
    }
}

proof fn lemma_multiset_insert<A>(s: Seq<A>, p: int, x: A)
    requires
        0 <= p <= s.len(),
    ensures
        s.insert(p, x).to_multiset() == s.to_multiset().insert(x),
{
    broadcast use vstd::seq_lib::group_to_multiset_ensures;

    let t = s.insert(p, x);
    assert(t.remove(p) =~= s);
    assert(t[p] == x);
    assert(t.to_multiset().count(x) > 0);
    assert(t.to_multiset() =~= t.to_multiset().remove(x).insert(x));
}

/// Orders entries by weight, heaviest first, then by display name with ASCII
/// case ignored.
fn order(entries: Vec<AppEntry>) -> (r: Vec<AppEntry>)
    requires
        one_per_executable(entries_view(entries@)),
    ensures
        one_per_executable(entries_view(r@)),
        catalog_order(entries_view(r@)),
        entries_view(r@).to_multiset() == entries_view(entries@).to_multiset(),
{
    broadcast use vstd::seq_lib::group_to_multiset_ensures;

    let ghost total = entries_view(entries@).to_multiset();
    let mut rest = entries;
    let mut sorted: Vec<AppEntry> = Vec::new();
    proof {
        assert(entries_view(sorted@) =~= Seq::<EntryView>::empty());
        assert(Seq::<EntryView>::empty().to_multiset() =~= Multiset::<EntryView>::empty());
        assert(Multiset::<EntryView>::empty().add(total) =~= total);
    }
    while rest.len() > 0
        invariant
            catalog_order(entries_view(sorted@)),
            entries_view(sorted@).to_multiset().add(entries_view(rest@).to_multiset()) == total,
            one_per_executable(entries_view(sorted@)),
            one_per_executable(entries_view(rest@)),
            forall|a: int, b: int|
                #![trigger entries_view(sorted@)[a], entries_view(rest@)[b]]
                0 <= a < sorted@.len() && 0 <= b < rest@.len() ==> !same_ignoring_case(
                    entries_view(sorted@)[a].executable,
                    entries_view(rest@)[b].executable,
                ),
        decreases rest@.len(),
    {
        let ghost before_rest = entries_view(rest@);
        let x = rest.pop().unwrap();
        proof {
            assert(before_rest =~= entries_view(rest@).push(x@));
        }
        let ghost s = entries_view(sorted@);
        let mut p: usize = 0;
        while p < sorted.len() && !outranks(&x, &sorted[p])
            invariant
                p <= sorted@.len(),
                s == entries_view(sorted@),
                forall|j: int| 0 <= j < p ==> !ranks_before(x@, #[trigger] s[j]),
            decreases sorted@.len() - p,
        {
            p = p + 1;
        }
        proof {
            lemma_insert_ordered(s, x@, p as int);
            lemma_multiset_insert(s, p as int, x@);
        }
        let ghost r1 = entries_view(rest@);
        proof {
            let n = before_rest.len() - 1;
            assert forall|b: int| 0 <= b < r1.len() implies #[trigger] r1[b] == before_rest[b] by {}
            assert forall|b: int| 0 <= b < r1.len() implies !same_ignoring_case(x@.executable, #[trigger] r1[b].executable) by {
                assert(before_rest[n] == x@);
                assert(!same_ignoring_case(before_rest[b].executable, before_rest[n].executable));
            }
            assert forall|a: int| 0 <= a < s.len() implies !same_ignoring_case(#[trigger] s[a].executable, x@.executable) by {
                assert(before_rest[n] == x@);
                assert(!same_ignoring_case(s[a].executable, before_rest[n].executable));
            }
        }
        sorted.insert(p, x);
        proof {
            assert(entries_view(sorted@) =~= s.insert(p as int, x@));
            let t = entries_view(sorted@);
            assert forall|i: int, j: int| #![trigger t[i], t[j]] 0 <= i < j < t.len() implies !same_ignoring_case(t[i].executable, t[j].executable) by {
                if i < p {
                    assert(t[i] == s[i]);
                } else if i == p {
                    assert(t[i] == x@);
                } else {
                    assert(t[i] == s[i - 1]);
                }
                if j < p {
                    assert(t[j] == s[j]);
                } else if j == p {
                    assert(t[j] == x@);
                } else {
                    assert(t[j] == s[j - 1]);
                }
            }
            assert forall|a: int, b: int|
                #![trigger t[a], r1[b]]
                0 <= a < t.len() && 0 <= b < r1.len() implies !same_ignoring_case(t[a].executable, r1[b].executable) by {
                assert(r1[b] == before_rest[b]);
                if a < p {
                    assert(t[a] == s[a]);
                } else if a == p {
                    assert(t[a] == x@);
                } else {
                    assert(t[a] == s[a - 1]);
                }
            }
            let ms = s.to_multiset();
            let mr = entries_view(rest@).to_multiset();
            entries_view(rest@).to_multiset_ensures();
            assert(entries_view(rest@).push(x@).to_multiset() =~= mr.insert(x@));
            assert(before_rest.to_multiset() == mr.insert(x@));
            assert(ms.insert(x@).add(mr) =~= ms.add(mr.insert(x@)));
            assert(entries_view(sorted@).to_multiset().add(entries_view(rest@).to_multiset()) =~= total);
        }
    }
    proof {
        assert(entries_view(rest@) =~= Seq::<EntryView>::empty());
        assert(entries_view(sorted@).to_multiset() =~= total);
    }
    sorted
}

proof fn lemma_insert_ordered(s: Seq<EntryView>, x: EntryView, p: int)
    requires
        catalog_order(s),
        0 <= p <= s.len(),
        forall|j: int| 0 <= j < p ==> !ranks_before(x, #[trigger] s[j]),
        p < s.len() ==> ranks_before(x, s[p]),
    ensures
        catalog_order(s.insert(p, x)),
{
    let n = s.insert(p, x);
    assert forall|i: int, j: int| #![trigger n[i], n[j]] 0 <= i < j < n.len() implies !ranks_before(n[j], n[i]) by {
        if j == p {
            assert(n[i] == s[i]);
        } else if i == p {
            assert(n[j] == s[j - 1]);
            if ranks_before(s[j - 1], x) {
                if j - 1 > p {
                    assert(!ranks_before(s[j - 1], s[p]));
                    lemma_ranks_before_transitive(s[j - 1], x, s[p]);
                } else {
                    lemma_ranks_before_transitive(s[p], x, s[p]);
                    lemma_seq_lt_irreflexive(lowered(s[p].display));
                }
            }
        } else if i < p && j > p {
            assert(n[i] == s[i] && n[j] == s[j - 1]);
        } else if i > p {
            assert(n[i] == s[i - 1] && n[j] == s[j - 1]);
        } else {
            assert(n[i] == s[i] && n[j] == s[j]);
        }
    }
}

/// Whether `a` comes strictly before `b` in the catalogue.
fn outranks(a: &AppEntry, b: &AppEntry) -> (r: bool)
    ensures
        r == ranks_before(a@, b@),
{
    a.weight > b.weight || (a.weight == b.weight && less_ignoring_case(a.display.as_str(), b.display.as_str()))
}

} // verus!
