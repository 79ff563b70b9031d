//! System resources and Ollama-model capacity: the GPU readings taken from
//! `nvidia-smi` and from the AMD/Intel sysfs entries, the system summary,
//! and whether a model of a given size fits the safe budget.
use vstd::prelude::*;
use crate::text::{
    chars_of, line_ranges, lines, parse_u64_range, parse_u64_spec, push_range, range_starts_with,
    split_on, starts_with, trim, trim_bounds, trim_start_seq,
};

verus! {

broadcast use vstd::string::group_string_axioms;

/// A summary of the machine's memory and GPU.
pub struct SystemInfo {
    pub ram_total_bytes: u64,
    pub ram_available_bytes: u64,
    pub vram_total_bytes: u64,
    pub gpu_detected: bool,
    pub gpu_name: Option<String>,
    pub safe_budget_bytes: u64,
}

/// Whether a model fits, with the warning to show.
pub struct ModelFit {
    pub fits: bool,
    pub warning: Option<String>,
}

/// Warning for a model larger than the safe budget.
pub const CAPACITY_WARNING: &'static str =
    "Warning: Model exceeds system capacity. Proceeding may cause crashes.";

/// Warning for a machine without a detected GPU.
pub const NO_GPU_WARNING: &'static str = "No GPU detected. Falling back to CPU (slower).";

/// GPU name used when the sysfs entry names no driver.
pub const DEFAULT_GPU_NAME: &'static str = "AMD/Intel GPU";

pub open spec fn opt_string_view(o: Option<String>) -> Option<Seq<char>> {
    match o {
        Some(s) => Some(s@),
        None => None,
    }
}

/// The system summary from the memory totals, the VRAM reading, the GPU
/// name and the safe budget: a GPU counts as detected when there is VRAM or
/// a GPU name.
pub fn get_system_info(
    ram_total_bytes: u64,
    ram_available_bytes: u64,
    vram_total_bytes: u64,
    gpu_name: Option<String>,
    safe_budget_bytes: u64,
) -> (r: SystemInfo)
    ensures
        r.ram_total_bytes == ram_total_bytes,
        r.ram_available_bytes == ram_available_bytes,
        r.vram_total_bytes == vram_total_bytes,
        r.gpu_detected == (vram_total_bytes > 0 || gpu_name is Some),
        opt_string_view(r.gpu_name) == opt_string_view(gpu_name),
        r.safe_budget_bytes == safe_budget_bytes,
{
    let gpu_detected = vram_total_bytes > 0 || gpu_name.is_some();
    SystemInfo {
        ram_total_bytes,
        ram_available_bytes,
        vram_total_bytes,
        gpu_detected,
        gpu_name,
        safe_budget_bytes,
    }
}

/// Whether a model of `model_size_bytes` fits the machine described by
/// `info`: a model of unknown size fits; one larger than the safe budget
/// does not, with the capacity warning; otherwise it fits, with the CPU
/// warning when no GPU was detected.
pub fn evaluate_model_fit(info: &SystemInfo, model_size_bytes: Option<u64>) -> (r: ModelFit)
    ensures
        r.fits == match model_size_bytes {
            None => true,
            Some(size) => size <= info.safe_budget_bytes,
        },
        opt_string_view(r.warning) == match model_size_bytes {
            None => None,
            Some(size) => if size > info.safe_budget_bytes {
                Some(CAPACITY_WARNING@)
            } else if !info.gpu_detected {
                Some(NO_GPU_WARNING@)
            } else {
                None
            },
        },
{
    match model_size_bytes {
        None => ModelFit { fits: true, warning: None },
        Some(size) => {
            if size > info.safe_budget_bytes {
                ModelFit { fits: false, warning: Some(String::from_str(CAPACITY_WARNING)) }
            } else if !info.gpu_detected {
                ModelFit { fits: true, warning: Some(String::from_str(NO_GPU_WARNING)) }
            } else {
                ModelFit { fits: true, warning: None }
            }
        },
    }
}

/// The VRAM and GPU name: the `nvidia-smi` reading when there is one, else
/// the sysfs reading, else no VRAM and no name.
pub fn read_vram_and_gpu(nvidia: Option<(u64, String)>, sysfs: Option<(u64, String)>) -> (r: (
    u64,
    Option<String>,
))
    ensures
        match nvidia {
            Some((vram, name)) => r.0 == vram && opt_string_view(r.1) == Some(name@),
            None => match sysfs {
                Some((vram, name)) => r.0 == vram && opt_string_view(r.1) == Some(name@),
                None => r.0 == 0 && r.1 is None,
            },
        },
{
    if let Some((vram, name)) = nvidia {
        return (vram, Some(name));
    }
    if let Some((vram, name)) = sysfs {
        return (vram, Some(name));
    }
    (0, None)
}

/// Bytes in a MiB.
pub const BYTES_PER_MIB: u64 = 1048576;

/// The reading in the first line of `nvidia-smi` output queried for
/// `memory.total,name` as CSV without header or units: the total memory,
/// given in MiB and taken in bytes, and the GPU name, the first two
/// comma-separated fields, trimmed. A total whose byte count does not fit
/// in a `u64` gives no reading.
pub open spec fn nvidia_reading(text: Seq<char>) -> Option<(u64, Seq<char>)> {
    let ls = lines(text);
    if ls.len() == 0 {
        None
    } else {
        let fields = split_on(ls[0], ',');
        match parse_u64_spec(trim(fields[0])) {
            None => None,
            Some(mib) => if fields.len() >= 2 && mib * BYTES_PER_MIB <= u64::MAX {
                Some(((mib * BYTES_PER_MIB) as u64, trim(fields[1])))
            } else {
                None
            },
        }
    }
}

/// Reads the total memory in bytes and the name of the first GPU from
/// `nvidia-smi` output.
pub fn parse_nvidia_smi(text: &str) -> (r: Option<(u64, String)>)
    ensures
        match nvidia_reading(text@) {
            None => r is None,
            Some((bytes, name)) => r matches Some((m, n)) && m == bytes && n@ == name,
        },
{
    let v = chars_of(text);
    let rs = line_ranges(&v);
    if rs.len() == 0 {
        return None;
    }
    let (a, b) = rs[0];
    assert(v@.subrange(rs@[0].0 as int, rs@[0].1 as int) == lines(text@)[0]);
    let ghost line = v@.subrange(a as int, b as int);
    // The first comma, if any, and the second one.
    let c1 = find_char(&v, a, b, ',');
    let (lo0, hi0) = trim_bounds(&v, a, c1);
    assert(v@.subrange(a as int, c1 as int) =~= line.subrange(0, c1 - a));
    let mib = match parse_u64_range(&v, lo0, hi0) {
        None => {
            proof {
                lemma_first_fields(line, (c1 - a) as int);
            }
            return None;
        },
        Some(m) => m,
    };
    proof {
        lemma_first_fields(line, (c1 - a) as int);
    }
    if c1 == b {
        return None;
    }
    let c2 = find_char(&v, c1 + 1, b, ',');
    proof {
        lemma_second_field(line, (c1 - a) as int, (c2 - a) as int);
        assert(v@.subrange(c1 + 1, c2 as int) =~= line.subrange(c1 - a + 1, c2 - a));
    }
    let (lo1, hi1) = trim_bounds(&v, c1 + 1, c2);
    let bytes = match mib.checked_mul(BYTES_PER_MIB) {
        None => {
            return None;
        },
        Some(b) => b,
    };
    let mut name = String::new();
    push_range(&mut name, &v, lo1, hi1);
    Some((bytes, name))
}

/// The index of the first `c` in `v[lo..hi]`, or `hi`.
fn find_char(v: &Vec<char>, lo: usize, hi: usize, c: char) -> (r: usize)
    requires
        lo <= hi <= v@.len(),
    ensures
        lo <= r <= hi,
        r < hi ==> v@[r as int] == c,
        forall|i: int| lo <= i < r ==> v@[i] != c,
{
    let mut i = lo;
    while i < hi && v[i] != c
        invariant
            lo <= i <= hi <= v@.len(),
            forall|j: int| lo <= j < i ==> v@[j] != c,
        decreases hi - i,
    {
        i = i + 1;
    }
    i
}

/// The first comma-separated field of `line` ends at the first comma `k`
/// (or the end), and there is a second field exactly when there is a comma.
proof fn lemma_first_fields(line: Seq<char>, k: int)
    requires
        0 <= k <= line.len(),
        k < line.len() ==> line[k] == ',',
        forall|i: int| 0 <= i < k ==> line[i] != ',',
    ensures
        split_on(line, ',')[0] == line.subrange(0, k),
        split_on(line, ',').len() >= 2 <==> k < line.len(),
{
    let head = line.subrange(0, k);
    crate::text::lemma_split_single(head, ',');
    if k < line.len() {
        let rest = line.subrange(k + 1, line.len() as int);
        assert(line =~= head + seq![','] + rest);
        crate::text::lemma_split_append_sep(head, rest, ',');
        crate::text::lemma_split_len(rest, ',');
    } else {
        assert(line =~= head);
    }
}

/// The second comma-separated field of `line`, when the first comma is at
/// `k1`, ends at the next comma `k2` (or the end).
proof fn lemma_second_field(line: Seq<char>, k1: int, k2: int)
    requires
        0 <= k1 < line.len(),
        k1 + 1 <= k2 <= line.len(),
        line[k1] == ',',
        forall|i: int| 0 <= i < k1 ==> line[i] != ',',
        k2 < line.len() ==> line[k2] == ',',
        forall|i: int| k1 + 1 <= i < k2 ==> line[i] != ',',
    ensures
        split_on(line, ',')[1] == line.subrange(k1 + 1, k2),
{
    let head = line.subrange(0, k1);
    let rest = line.subrange(k1 + 1, line.len() as int);
    assert(line =~= head + seq![','] + rest);
    crate::text::lemma_split_append_sep(head, rest, ',');
    crate::text::lemma_split_single(head, ',');
    lemma_first_fields(rest, k2 - k1 - 1);
    crate::text::lemma_split_len(rest, ',');
    assert(split_on(line, ',') == seq![head] + split_on(rest, ','));
    assert((seq![head] + split_on(rest, ','))[1] == split_on(rest, ',')[0]);
    assert(rest.subrange(0, k2 - k1 - 1) =~= line.subrange(k1 + 1, k2));
}

/// The VRAM total in a sysfs `mem_info_vram_total` file: its trimmed
/// content read as a `u64`.
pub fn parse_sysfs_vram(content: &str) -> (r: Option<u64>)
    ensures
        r == parse_u64_spec(trim(content@)),
{
    let v = chars_of(content);
    let (lo, hi) = trim_bounds(&v, 0, v.len());
    assert(v@.subrange(0, v@.len() as int) =~= v@);
    parse_u64_range(&v, lo, hi)
}

/// The first line that starts with `"DRIVER="`.
pub open spec fn first_driver_line(ls: Seq<Seq<char>>) -> Option<Seq<char>>
    decreases ls.len(),
{
    if ls.len() == 0 {
        None
    } else if starts_with(ls[0], "DRIVER="@) {
        Some(ls[0])
    } else {
        first_driver_line(ls.drop_first())
    }
}

/// The VRAM total that a sysfs entry gives: its `mem_info_vram_total`
/// content, when it was read, parsed as `parse_sysfs_vram` does.
pub open spec fn vram_of(content: Option<String>) -> Option<u64> {
    match content {
        Some(c) => parse_u64_spec(trim(c@)),
        None => None,
    }
}

/// The first of the sysfs entries, in order, whose VRAM total was read and
/// parses: its index and the total; `None` when no entry gives one.
pub fn first_vram_reading(contents: &Vec<Option<String>>) -> (r: Option<(usize, u64)>)
    ensures
        match r {
            Some((i, v)) => i < contents@.len() && vram_of(contents@[i as int]) == Some(v)
                && forall|j: int| 0 <= j < i ==> #[trigger] vram_of(contents@[j]) is None,
            None => forall|j: int| 0 <= j < contents@.len() ==> #[trigger] vram_of(contents@[j]) is None,
        },
{
    let mut i: usize = 0;
    while i < contents.len()
        invariant
            0 <= i <= contents@.len(),
            forall|j: int| 0 <= j < i ==> #[trigger] vram_of(contents@[j]) is None,
        decreases contents@.len() - i,
    {
        match &contents[i] {
            Some(c) => {
                match parse_sysfs_vram(c.as_str()) {
                    Some(v) => {
                        return Some((i, v));
                    },
                    None => {},
                }
            },
            None => {},
        }
        i = i + 1;
    }
    None
}

/// The GPU name in a sysfs `uevent` file: the first `DRIVER=` line with
/// every leading `"DRIVER="` removed, or the generic name when the file
/// could not be read or has no such line.
pub open spec fn driver_name(uevent: Option<Seq<char>>) -> Seq<char> {
    match uevent {
        None => DEFAULT_GPU_NAME@,
        Some(u) => match first_driver_line(lines(u)) {
            None => DEFAULT_GPU_NAME@,
            Some(l) => trim_start_seq(l, "DRIVER="@),
        },
    }
}

/// Reads the driver name from a sysfs `uevent` file's content.
pub fn gpu_driver_name(uevent: Option<&str>) -> (r: String)
    ensures
        r@ == driver_name(match uevent {
            Some(u) => Some(u@),
            None => None,
        }),
{
    let u = match uevent {
        None => {
            return String::from_str(DEFAULT_GPU_NAME);
        },
        Some(u) => u,
    };
    let v = chars_of(u);
    let rs = line_ranges(&v);
    let prefix = chars_of("DRIVER=");
    proof {
        reveal_strlit("DRIVER=");
    }
    let ghost ls = lines(v@);
    let mut k: usize = 0;
    assert(ls.skip(0) =~= ls);
    while k < rs.len()
        invariant
            ls == lines(v@),
            v@ == u@,
            uevent == Some(u),
            prefix@ == "DRIVER="@,
            prefix@.len() == 7,
            rs@.len() == ls.len(),
            forall|j: int| #![trigger rs@[j]] 0 <= j < rs@.len() ==> rs@[j].0 <= rs@[j].1 <= v@.len(),
            forall|j: int|
                #![trigger rs@[j]]
                0 <= j < rs@.len() ==> v@.subrange(rs@[j].0 as int, rs@[j].1 as int) == ls[j],
            0 <= k <= rs@.len(),
            first_driver_line(ls) == first_driver_line(ls.skip(k as int)),
        decreases rs@.len() - k,
    {
        let (a, b) = rs[k];
        assert(v@.subrange(rs@[k as int].0 as int, rs@[k as int].1 as int) == ls[k as int]);
        assert(ls.skip(k as int)[0] == ls[k as int]);
        if range_starts_with(&v, a, b, &prefix) {
            let ghost line = v@.subrange(a as int, b as int);
            assert(first_driver_line(ls) == Some(line));
            let mut start = a;
            while range_starts_with(&v, start, b, &prefix)
                invariant
                    a <= start <= b <= v@.len(),
                    prefix@ == "DRIVER="@,
                    prefix@.len() == 7,
                    line == v@.subrange(a as int, b as int),
                    first_driver_line(ls) == Some(line),
                    ls == lines(v@),
                    v@ == u@,
                    uevent == Some(u),
                    trim_start_seq(v@.subrange(a as int, b as int), "DRIVER="@) == trim_start_seq(
                        v@.subrange(start as int, b as int),
                        "DRIVER="@,
                    ),
                decreases b - start,
            {
                assert(v@.subrange(start as int, b as int).skip(7) =~= v@.subrange(
                    start + 7,
                    b as int,
                ));
                start = start + prefix.len();
            }
            assert(trim_start_seq(v@.subrange(start as int, b as int), "DRIVER="@) == v@.subrange(
                start as int,
                b as int,
            ));
            let mut r = String::new();
            push_range(&mut r, &v, start, b);
            return r;
        }
        assert(ls.skip(k as int).drop_first() =~= ls.skip(k + 1));
        k = k + 1;
    }
    String::from_str(DEFAULT_GPU_NAME)
}

} // verus!
