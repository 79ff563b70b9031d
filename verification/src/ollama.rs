//! The model picker's catalogue: the models installed in the local Ollama
//! daemon, followed by a small curated list of popular models that are not
//! installed yet, so that the picker is never empty.
use vstd::prelude::*;

verus! {

broadcast use vstd::string::group_string_axioms;

/// A model shown in the picker.
pub struct ModelEntry {
    pub name: String,
    pub size_bytes: u64,
    pub installed: bool,
}

/// What a finished pull reports.
pub struct PullResult {
    pub model: String,
    pub message: String,
}

/// A model as the daemon's tag list reports it.
pub struct TagsModel {
    pub name: String,
    pub size: u64,
}

impl View for ModelEntry {
    type V = (Seq<char>, u64, bool);

    open spec fn view(&self) -> (Seq<char>, u64, bool) {
        (self.name@, self.size_bytes, self.installed)
    }
}

/// The views of a list of entries.
pub open spec fn entries_view(v: Seq<ModelEntry>) -> Seq<(Seq<char>, u64, bool)> {
    v.map_values(|e: ModelEntry| e@)
}

/// The curated catalogue: names and sizes in bytes, none installed.
pub open spec fn catalogue() -> Seq<(Seq<char>, u64, bool)> {
    seq![
        ("llama3.2:1b"@, 1_300_000_000u64, false),
        ("llama3.2:3b"@, 2_000_000_000u64, false),
        ("qwen2.5:7b"@, 4_700_000_000u64, false),
        ("mistral:7b"@, 4_400_000_000u64, false),
        ("phi3:mini"@, 2_300_000_000u64, false),
        ("gemma2:2b"@, 1_600_000_000u64, false),
    ]
}

/// Whether a model called `name` is among `entries`.
pub open spec fn has_name(entries: Seq<(Seq<char>, u64, bool)>, name: Seq<char>) -> bool {
    exists|i: int| 0 <= i < entries.len() && (#[trigger] entries[i]).0 == name
}

/// The entries of `suggestions`, in order, whose name is not among
/// `installed`.
pub open spec fn missing_from(
    installed: Seq<(Seq<char>, u64, bool)>,
    suggestions: Seq<(Seq<char>, u64, bool)>,
) -> Seq<(Seq<char>, u64, bool)>
    decreases suggestions.len(),
{
    if suggestions.len() == 0 {
        Seq::empty()
    } else {
        let prev = missing_from(installed, suggestions.drop_last());
        if has_name(installed, suggestions.last().0) {
            prev
        } else {
            prev.push(suggestions.last())
        }
    }
}

fn entry(name: &str, size_bytes: u64) -> (e: ModelEntry)
    ensures
        e@ == (name@, size_bytes, false),
{
    ModelEntry { name: String::from_str(name), size_bytes, installed: false }
}

/// The curated catalogue, so that the picker is never empty.
pub fn suggested_models() -> (r: Vec<ModelEntry>)
    ensures
        entries_view(r@) == catalogue(),
{
    let mut r: Vec<ModelEntry> = Vec::new();
    r.push(entry("llama3.2:1b", 1_300_000_000));
    r.push(entry("llama3.2:3b", 2_000_000_000));
    r.push(entry("qwen2.5:7b", 4_700_000_000));
    r.push(entry("mistral:7b", 4_400_000_000));
    r.push(entry("phi3:mini", 2_300_000_000));
    r.push(entry("gemma2:2b", 1_600_000_000));
    assert(entries_view(r@) =~= catalogue());
    r
}

fn copy_entry(e: &ModelEntry) -> (r: ModelEntry)
    ensures
        r@ == e@,
{
    ModelEntry { name: e.name.clone(), size_bytes: e.size_bytes, installed: e.installed }
}

/// The picker's list for the installed models `installed`: those first, as
/// they are, then each catalogue model whose name is not installed.
pub open spec fn picker_list(installed: Seq<(Seq<char>, u64, bool)>) -> Seq<
    (Seq<char>, u64, bool),
> {
    installed + missing_from(installed, catalogue())
}

/// The picker's list: the installed models as the daemon reported them,
/// then each catalogue model whose name is not installed.
pub fn list_ollama_models(installed: Vec<ModelEntry>) -> (r: Vec<ModelEntry>)
    ensures
        entries_view(r@) == picker_list(entries_view(installed@)),
{
    let suggestions = suggested_models();
    let ghost inst = entries_view(installed@);
    let mut out = installed;
    let n_inst = out.len();
    let mut k: usize = 0;
    assert(catalogue().take(0) =~= Seq::<(Seq<char>, u64, bool)>::empty());
    assert(entries_view(out@) =~= inst + Seq::<(Seq<char>, u64, bool)>::empty());
    while k < suggestions.len()
        invariant
            entries_view(suggestions@) == catalogue(),
            n_inst == inst.len(),
            inst.len() <= out@.len(),
            forall|i: int| 0 <= i < inst.len() ==> #[trigger] out@[i]@ == inst[i],
            entries_view(out@) == inst + missing_from(inst, catalogue().take(k as int)),
            0 <= k <= suggestions@.len(),
        decreases suggestions@.len() - k,
    {
        let s = &suggestions[k];
        assert(s@ == catalogue()[k as int]);
        assert(catalogue().take(k + 1).drop_last() =~= catalogue().take(k as int));
        assert(catalogue().take(k + 1).last() == catalogue()[k as int]);
        let mut found = false;
        let mut j: usize = 0;
        while j < n_inst
            invariant
                0 <= j <= inst.len(),
                n_inst == inst.len(),
                inst.len() <= out@.len(),
                forall|i: int| 0 <= i < inst.len() ==> #[trigger] out@[i]@ == inst[i],
                found == exists|i: int| 0 <= i < j && (#[trigger] inst[i]).0 == s@.0,
            decreases inst.len() - j,
        {
            if out[j].name == s.name {
                found = true;
            }
            assert(out@[j as int]@ == inst[j as int]);
            j = j + 1;
        }
        let ghost before = out@;
        if !found {
            out.push(copy_entry(s));
            assert(entries_view(out@) =~= entries_view(before).push(s@));
        }
        k = k + 1;
    }
    assert(catalogue().take(6) =~= catalogue());
    out
}

/// The picker entries for the models that the daemon reports installed.
pub fn installed_entries(models: Vec<TagsModel>) -> (r: Vec<ModelEntry>)
    ensures
        r@.len() == models@.len(),
        forall|i: int|
            0 <= i < r@.len() ==> #[trigger] r@[i]@ == (models@[i].name@, models@[i].size, true),
{
    let mut r: Vec<ModelEntry> = Vec::new();
    let mut i: usize = 0;
    while i < models.len()
        invariant
            0 <= i <= models@.len(),
            r@.len() == i,
            forall|j: int|
                0 <= j < i ==> #[trigger] r@[j]@ == (models@[j].name@, models@[j].size, true),
        decreases models@.len() - i,
    {
        r.push(
            ModelEntry { name: models[i].name.clone(), size_bytes: models[i].size, installed: true },
        );
        i = i + 1;
    }
    r
}

/// What a finished pull of the model `name` reports.
pub fn pull_outcome(name: String) -> (r: PullResult)
    ensures
        r.model@ == name@,
        r.message@ == "Pulled "@ + name@,
{
    let mut message = String::from_str("Pulled ");
    message.append(name.as_str());
    PullResult { model: name, message }
}

// ---------------------------------------------------------------------------
// Laws of the picker list
// ---------------------------------------------------------------------------

proof fn lemma_missing_from(
    installed: Seq<(Seq<char>, u64, bool)>,
    suggestions: Seq<(Seq<char>, u64, bool)>,
)
    ensures
        missing_from(installed, suggestions).len() <= suggestions.len(),
        forall|j: int|
            0 <= j < missing_from(installed, suggestions).len() ==> !has_name(
                installed,
                (#[trigger] missing_from(installed, suggestions)[j]).0,
            ) && exists|k: int|
                0 <= k < suggestions.len() && suggestions[k] == missing_from(
                    installed,
                    suggestions,
                )[j],
        installed.len() == 0 ==> missing_from(installed, suggestions) == suggestions,
    decreases suggestions.len(),
{
    if suggestions.len() > 0 {
        let rest = suggestions.drop_last();
        lemma_missing_from(installed, rest);
        let m = missing_from(installed, suggestions);
        let prev = missing_from(installed, rest);
        assert forall|j: int| 0 <= j < m.len() implies !has_name(installed, (#[trigger] m[j]).0)
            && exists|k: int| 0 <= k < suggestions.len() && suggestions[k] == m[j] by {
            if j < prev.len() {
                assert(m[j] == prev[j]);
                let k = choose|k: int| 0 <= k < rest.len() && rest[k] == prev[j];
                assert(suggestions[k] == m[j]);
            } else {
                assert(suggestions[suggestions.len() - 1] == m[j]);
            }
        }
        if installed.len() == 0 {
            assert(!has_name(installed, suggestions.last().0));
            assert(prev.push(suggestions.last()) =~= suggestions);
        }
    }
}

/// The picker is never empty: with nothing installed it lists the whole
/// catalogue, otherwise at least the installed models.
pub proof fn law_picker_never_empty(installed: Seq<(Seq<char>, u64, bool)>)
    ensures
        picker_list(installed).len() > 0,
        installed.len() == 0 ==> picker_list(installed) == catalogue(),
{
    lemma_missing_from(installed, catalogue());
    if installed.len() == 0 {
        assert(picker_list(installed) =~= catalogue());
    }
}

/// The installed models come first and unchanged; every entry after them
/// is a catalogue model whose name is not installed, so a suggestion never
/// duplicates an installed model, and there are at most as many as the
/// catalogue has.
pub proof fn law_suggestions_are_not_installed(installed: Seq<(Seq<char>, u64, bool)>)
    ensures
        picker_list(installed).subrange(0, installed.len() as int) == installed,
        picker_list(installed).len() <= installed.len() + catalogue().len(),
        forall|j: int|
            installed.len() <= j < picker_list(installed).len() ==> !has_name(
                installed,
                (#[trigger] picker_list(installed)[j]).0,
            ) && exists|k: int|
                0 <= k < catalogue().len() && catalogue()[k] == picker_list(installed)[j],
{
    lemma_missing_from(installed, catalogue());
    let m = missing_from(installed, catalogue());
    assert(picker_list(installed).subrange(0, installed.len() as int) =~= installed);
    assert forall|j: int| installed.len() <= j < picker_list(installed).len() implies !has_name(
        installed,
        (#[trigger] picker_list(installed)[j]).0,
    ) && exists|k: int|
        0 <= k < catalogue().len() && catalogue()[k] == picker_list(installed)[j] by {
        assert(picker_list(installed)[j] == m[j - installed.len()]);
    }
}


/// Whether an installed model has the name of `e`.
spec fn installed_has(installed: Seq<(Seq<char>, u64, bool)>, e: (Seq<char>, u64, bool)) -> bool {
    exists|i: int| 0 <= i < installed.len() && installed[i].0 == e.0
}

proof fn lemma_missing_is_filter(
    installed: Seq<(Seq<char>, u64, bool)>,
    suggestions: Seq<(Seq<char>, u64, bool)>,
)
    ensures
        missing_from(installed, suggestions) == suggestions.filter(
            |e: (Seq<char>, u64, bool)| !installed_has(installed, e),
        ),
    decreases suggestions.len(),
{
    reveal(Seq::filter);
    if suggestions.len() > 0 {
        lemma_missing_is_filter(installed, suggestions.drop_last());
        let l = suggestions.last();
        assert(has_name(installed, l.0) == installed_has(installed, l)) by {
            if has_name(installed, l.0) {
                let i = choose|i: int|
                    0 <= i < installed.len() && (#[trigger] installed[i]).0 == l.0;
                assert(installed[i].0 == l.0);
            }
            if installed_has(installed, l) {
                let i = choose|i: int| 0 <= i < installed.len() && installed[i].0 == l.0;
                assert(installed[i] == installed[i]);
            }
        }
    }
}

/// The picker lists the installed models first, as they were reported, and
/// then exactly the catalogue models that no installed model has the name
/// of, in catalogue order: every suggestion that is not installed is
/// offered, and none that is.
pub proof fn law_picker_offers_every_missing_suggestion(installed: Seq<(Seq<char>, u64, bool)>)
    ensures
        picker_list(installed) == installed + catalogue().filter(
            |e: (Seq<char>, u64, bool)|
                !(exists|i: int| 0 <= i < installed.len() && installed[i].0 == e.0),
        ),
        forall|k: int|
            0 <= k < catalogue().len() && !(exists|i: int|
                0 <= i < installed.len() && installed[i].0 == #[trigger] catalogue()[k].0) ==> exists|j: int|
                installed.len() <= j < picker_list(installed).len() && picker_list(installed)[j]
                    == catalogue()[k],
{
    lemma_missing_is_filter(installed, catalogue());
    let pred = |e: (Seq<char>, u64, bool)| !installed_has(installed, e);
    let pred2 = |e: (Seq<char>, u64, bool)|
        !(exists|i: int| 0 <= i < installed.len() && installed[i].0 == e.0);
    assert(pred == pred2) by {
        assert(pred =~= pred2);
    }
    let f = catalogue().filter(pred);
    assert forall|k: int|
        0 <= k < catalogue().len() && !(exists|i: int|
            0 <= i < installed.len() && installed[i].0 == #[trigger] catalogue()[k].0) implies exists|j: int|
        installed.len() <= j < picker_list(installed).len() && picker_list(installed)[j]
            == catalogue()[k] by {
        catalogue().lemma_filter_contains(pred, k);
        assert(pred(catalogue()[k]));
        assert(f.contains(catalogue()[k]));
        let m = choose|m: int| 0 <= m < f.len() && f[m] == catalogue()[k];
        assert(picker_list(installed)[installed.len() + m] == f[m]);
    }
}

} // verus!
