//! The `amnia` alias in the user's shell rc file: validation of the alias
//! name, the alias line itself, the choice of rc file, and the rewrite of
//! the managed block, which is delimited by sentinel comments so that the
//! file can be rewritten idempotently without touching unrelated lines.
use vstd::prelude::*;
use crate::text::{
    chars_of, ends_with, join_lines, lemma_join_ends, lemma_lines_no_newline,
    lemma_join_split, lemma_lines_terminated, lemma_no_newline_concat, lemma_split_append_sep,
    lemma_split_ends, lemma_split_len, lemma_trim_keeps_first, lemma_split_join, lemma_split_single,
    line_ranges, lines, no_newline, push_char, push_range, range_ends_with, range_eq, split_end,
    split_on, strip_cr, trim, trim_bounds,
};

verus! {

broadcast use vstd::string::group_string_axioms;

/// First line of the managed block.
pub const BEGIN_MARK: &'static str = "# >>> amnia-desktop alias (managed) >>>";

/// Last line of the managed block.
pub const END_MARK: &'static str = "# <<< amnia-desktop alias (managed) <<<";

/// Message for a name that is empty or longer than 32 bytes.
pub const NAME_LENGTH_MSG: &'static str = "Alias name must be 1-32 characters";

/// Message for a name that does not start with an ASCII letter.
pub const NAME_START_MSG: &'static str = "Alias name must start with a letter";

/// Message for a name holding a character other than an ASCII letter or
/// digit, `'_'` or `'-'`.
pub const NAME_CHARSET_MSG: &'static str = "Alias name may only contain letters, digits, '_' and '-'";

/// What registering the alias did: the rc file written, the alias name and
/// the full alias line.
pub struct AliasResult {
    pub rc_file: String,
    pub alias_name: String,
    pub command: String,
}

/// The rc file that receives the alias.
#[derive(Clone, Copy, Debug, PartialEq, Eq, Structural)]
pub enum RcFile {
    Zshrc,
    Bashrc,
}

pub open spec fn is_ascii_alpha(c: char) -> bool {
    ('a' <= c && c <= 'z') || ('A' <= c && c <= 'Z')
}

pub open spec fn is_ascii_alnum(c: char) -> bool {
    is_ascii_alpha(c) || ('0' <= c && c <= '9')
}

/// A character that may appear in an alias name.
pub open spec fn is_alias_char(c: char) -> bool {
    is_ascii_alnum(c) || c == '_' || c == '-'
}

/// The message that rejects `name`, or `None` when `name` is a valid alias
/// name: 1 to 32 bytes, an ASCII letter first, and only ASCII letters,
/// digits, `'_'` and `'-'`. The checks are made in this order.
pub open spec fn alias_name_error(name: &str) -> Option<Seq<char>> {
    if name@.len() == 0 || name.len() > 32 {
        Some(NAME_LENGTH_MSG@)
    } else if !is_ascii_alpha(name@[0]) {
        Some(NAME_START_MSG@)
    } else if exists|i: int| 0 <= i < name@.len() && !is_alias_char(#[trigger] name@[i]) {
        Some(NAME_CHARSET_MSG@)
    } else {
        None
    }
}

/// Checks that `name` can serve as a shell alias name.
pub fn validate_alias_name(name: &str) -> (r: Result<(), String>)
    ensures
        r is Ok <==> alias_name_error(name) is None,
        r matches Err(e) ==> alias_name_error(name) == Some(e@),
{
    if name.is_empty() || name.len() > 32 {
        return Err(String::from_str(NAME_LENGTH_MSG));
    }
    let v = chars_of(name);
    let first = v[0];
    if !(('a' <= first && first <= 'z') || ('A' <= first && first <= 'Z')) {
        return Err(String::from_str(NAME_START_MSG));
    }
    let mut i: usize = 0;
    while i < v.len()
        invariant
            v@ == name@,
            !(name@.len() == 0 || name.len() > 32),
            is_ascii_alpha(name@[0]),
            0 <= i <= v@.len(),
            forall|j: int| 0 <= j < i ==> is_alias_char(#[trigger] v@[j]),
        decreases v@.len() - i,
    {
        let c = v[i];
        if !(('a' <= c && c <= 'z') || ('A' <= c && c <= 'Z') || ('0' <= c && c <= '9') || c
            == '_' || c == '-') {
            assert(!is_alias_char(name@[i as int]));
            return Err(String::from_str(NAME_CHARSET_MSG));
        }
        i = i + 1;
    }
    Ok(())
}

/// The rc file for a login shell `shell` (the value of `$SHELL`), given
/// which of `~/.zshrc` and `~/.bashrc` exist: the one of the running shell
/// if it exists, else `~/.bashrc` if it exists, else `~/.zshrc` if it
/// exists, else `~/.bashrc`, which is then created.
pub open spec fn rc_choice(shell: Seq<char>, zshrc_exists: bool, bashrc_exists: bool) -> RcFile {
    if ends_with(shell, "/zsh"@) && zshrc_exists {
        RcFile::Zshrc
    } else if ends_with(shell, "/bash"@) && bashrc_exists {
        RcFile::Bashrc
    } else if bashrc_exists {
        RcFile::Bashrc
    } else if zshrc_exists {
        RcFile::Zshrc
    } else {
        RcFile::Bashrc
    }
}

/// Picks the rc file that receives the alias.
pub fn pick_rc_file(shell: &str, zshrc_exists: bool, bashrc_exists: bool) -> (r: RcFile)
    ensures
        r == rc_choice(shell@, zshrc_exists, bashrc_exists),
{
    let v = chars_of(shell);
    let zsh = chars_of("/zsh");
    let bash = chars_of("/bash");
    assert(v@.subrange(0, v@.len() as int) =~= v@);
    if range_ends_with(&v, 0, v.len(), &zsh) && zshrc_exists {
        return RcFile::Zshrc;
    }
    if range_ends_with(&v, 0, v.len(), &bash) && bashrc_exists {
        return RcFile::Bashrc;
    }
    if bashrc_exists {
        RcFile::Bashrc
    } else if zshrc_exists {
        RcFile::Zshrc
    } else {
        RcFile::Bashrc
    }
}

/// The alias line: `alias NAME='python3 SIDECAR "$@"'`.
pub open spec fn alias_line(name: Seq<char>, sidecar: Seq<char>) -> Seq<char> {
    "alias "@ + name + "='python3 "@ + sidecar + " \"$@\"'"@
}

/// Builds the alias line that runs the sidecar at `sidecar` with the
/// alias's arguments.
pub fn alias_command(name: &str, sidecar: &str) -> (r: String)
    ensures
        r@ == alias_line(name@, sidecar@),
{
    let mut r = String::from_str("alias ");
    r.append(name);
    r.append("='python3 ");
    r.append(sidecar);
    r.append(" \"$@\"'");
    r
}

/// An alias name is accepted exactly when it has 1 to 32 bytes, starts
/// with an ASCII letter, lower or upper case, and holds only ASCII letters,
/// digits, `'_'` and `'-'`; a name of the wrong length is refused for its
/// length whatever its characters.
pub proof fn law_alias_names_accepted(name: &str)
    ensures
        alias_name_error(name) is None <==> {
            &&& 1 <= name@.len()
            &&& name.len() <= 32
            &&& ('a' <= name@[0] <= 'z' || 'A' <= name@[0] <= 'Z')
            &&& forall|i: int|
                0 <= i < name@.len() ==> {
                    let c = #[trigger] name@[i];
                    'a' <= c <= 'z' || 'A' <= c <= 'Z' || '0' <= c <= '9' || c == '_' || c == '-'
                }
        },
        (name@.len() == 0 || name.len() > 32) ==> alias_name_error(name) == Some(
            NAME_LENGTH_MSG@,
        ),
{
}

/// The rc file chosen for the alias: the running shell's own when it
/// exists (`~/.zshrc` for a shell path ending in `/zsh`, `~/.bashrc` for one
/// ending in `/bash`); otherwise one that exists, `~/.bashrc` first; and
/// `~/.bashrc`, to be created, when neither exists. The file chosen exists
/// whenever either does.
pub proof fn law_rc_file_of_running_shell(shell: Seq<char>, zshrc_exists: bool, bashrc_exists: bool)
    ensures
        ends_with(shell, "/zsh"@) && zshrc_exists ==> rc_choice(shell, zshrc_exists, bashrc_exists)
            == RcFile::Zshrc,
        ends_with(shell, "/bash"@) && bashrc_exists ==> rc_choice(shell, zshrc_exists, bashrc_exists)
            == RcFile::Bashrc,
        !(ends_with(shell, "/zsh"@) && zshrc_exists) && bashrc_exists ==> rc_choice(
            shell,
            zshrc_exists,
            bashrc_exists,
        ) == RcFile::Bashrc,
        rc_choice(shell, zshrc_exists, bashrc_exists) == RcFile::Zshrc ==> zshrc_exists,
        rc_choice(shell, zshrc_exists, bashrc_exists) == RcFile::Bashrc ==> bashrc_exists
            || !zshrc_exists,
{
    reveal_strlit("/zsh");
    reveal_strlit("/bash");
    if ends_with(shell, "/zsh"@) && ends_with(shell, "/bash"@) {
        let n = shell.len();
        assert(shell.subrange(n - 3, n as int) == "/zsh"@.subrange(1, 4)) by {
            assert(shell.subrange(n - 3, n as int) =~= shell.subrange(n - 4, n as int).subrange(
                1,
                4,
            ));
        }
        assert(shell.subrange(n - 3, n as int) == "/bash"@.subrange(2, 5)) by {
            assert(shell.subrange(n - 3, n as int) =~= shell.subrange(n - 5, n as int).subrange(
                2,
                5,
            ));
        }
        assert("/zsh"@.subrange(1, 4)[0] != "/bash"@.subrange(2, 5)[0]);
    }
}

/// The alias line defines the requested name verbatim: `alias `, the name,
/// then `='python3 `, the sidecar path verbatim, and ` "$@"'`, which hands
/// the alias's arguments on.
pub proof fn law_alias_line_defines_name(name: Seq<char>, sidecar: Seq<char>)
    ensures
        alias_line(name, sidecar).len() == 22 + name.len() + sidecar.len(),
        alias_line(name, sidecar).subrange(0, 6) == "alias "@,
        alias_line(name, sidecar).subrange(6, 6 + name.len() as int) == name,
        alias_line(name, sidecar).subrange(6 + name.len() as int, 16 + name.len() as int) == "='python3 "@,
        alias_line(name, sidecar).subrange(16 + name.len() as int, 16 + name.len() as int + sidecar.len() as int)
            == sidecar,
        alias_line(name, sidecar).subrange(
            16 + name.len() as int + sidecar.len() as int,
            22 + name.len() as int + sidecar.len() as int,
        ) == " \"$@\"'"@,
{
    reveal_strlit("alias ");
    reveal_strlit("='python3 ");
    reveal_strlit(" \"$@\"'");
    let l = alias_line(name, sidecar);
    let n = name.len() as int;
    let m = sidecar.len() as int;
    assert(l.subrange(0, 6) =~= "alias "@);
    assert(l.subrange(6, 6 + n) =~= name);
    assert(l.subrange(6 + n, 16 + n) =~= "='python3 "@);
    assert(l.subrange(16 + n, 16 + n + m) =~= sidecar);
    assert(l.subrange(16 + n + m, 22 + n + m) =~= " \"$@\"'"@);
}

// ---------------------------------------------------------------------------
// The managed block
// ---------------------------------------------------------------------------

/// One line of the scan that drops managed blocks: a line that trims to
/// the begin mark opens a block; inside a block every line is dropped and a
/// line that trims to the end mark closes it; other lines are kept. The scan
/// runs only over the lines up to the last end mark, so that every block it
/// opens is closed.
pub open spec fn scan_step(st: (Seq<Seq<char>>, bool), l: Seq<char>) -> (Seq<Seq<char>>, bool) {
    if trim(l) == BEGIN_MARK@ {
        (st.0, true)
    } else if st.1 {
        (st.0, trim(l) != END_MARK@)
    } else {
        (st.0.push(l), false)
    }
}

/// The scan over `ls` from the state `st` (kept lines, inside a block).
pub open spec fn scan_from(st: (Seq<Seq<char>>, bool), ls: Seq<Seq<char>>) -> (
    Seq<Seq<char>>,
    bool,
)
    decreases ls.len(),
{
    if ls.len() == 0 {
        st
    } else {
        scan_step(scan_from(st, ls.drop_last()), ls.last())
    }
}

/// The number of leading lines up to and including the last one that trims
/// to the end mark; 0 when none does. No block can close after them.
pub open spec fn closed_prefix_len(ls: Seq<Seq<char>>) -> nat
    decreases ls.len(),
{
    if ls.len() == 0 {
        0
    } else if trim(ls.last()) == END_MARK@ {
        ls.len()
    } else {
        closed_prefix_len(ls.drop_last())
    }
}

/// The lines of `ls` without the lines that trim to the begin mark.
pub open spec fn without_begins(ls: Seq<Seq<char>>) -> Seq<Seq<char>>
    decreases ls.len(),
{
    if ls.len() == 0 {
        Seq::empty()
    } else if trim(ls.last()) == BEGIN_MARK@ {
        without_begins(ls.drop_last())
    } else {
        without_begins(ls.drop_last()).push(ls.last())
    }
}

/// The lines of `ls` outside managed blocks, in order: the scan's kept
/// lines up to the last end mark, then every later line but a begin mark,
/// since a begin mark that no end mark follows opens no block and is
/// dropped alone.
pub open spec fn kept_lines(ls: Seq<Seq<char>>) -> Seq<Seq<char>> {
    let k = closed_prefix_len(ls);
    scan_from((Seq::empty(), false), ls.take(k as int)).0 + without_begins(ls.skip(k as int))
}

/// The lines of `text` outside managed blocks, in order.
pub open spec fn unmanaged_lines(text: Seq<char>) -> Seq<Seq<char>> {
    kept_lines(lines(text))
}

/// The managed block holding the alias line `cmd`.
pub open spec fn managed_block(cmd: Seq<char>) -> Seq<char> {
    BEGIN_MARK@ + seq!['\n'] + cmd + seq!['\n'] + END_MARK@ + seq!['\n']
}

/// The rc text after the rewrite: the unmanaged lines, each ended by a line
/// feed, then, when there is a new block, a line feed if the text so far
/// does not end with one, and the block.
pub open spec fn rewritten(existing: Seq<char>, new_block: Option<Seq<char>>) -> Seq<char> {
    let out = join_lines(unmanaged_lines(existing));
    match new_block {
        None => out,
        Some(cmd) => (if out.len() > 0 && out.last() == '\n' {
            out
        } else {
            out.push('\n')
        }) + managed_block(cmd),
    }
}

pub open spec fn opt_view(o: Option<&str>) -> Option<Seq<char>> {
    match o {
        Some(s) => Some(s@),
        None => None,
    }
}

/// Rewrites the rc text `existing`: every managed block is removed, as is a
/// begin mark that no end mark closes, and the block holding `new_block`,
/// when given, is appended.
pub fn rewrite_managed_block(existing: &str, new_block: Option<&str>) -> (r: String)
    ensures
        r@ == rewritten(existing@, opt_view(new_block)),
{
    let v = chars_of(existing);
    let rs = line_ranges(&v);
    let begin = chars_of(BEGIN_MARK);
    let end = chars_of(END_MARK);
    let ghost ls = lines(v@);
    proof {
        lemma_closed_prefix_len_bound(ls);
    }
    // The lines after the last end mark are all kept.
    let mut kend: usize = rs.len();
    assert(ls.take(rs@.len() as int) =~= ls);
    assert(ls.take(0) =~= Seq::<Seq<char>>::empty());
    while kend > 0
        invariant
            ls == lines(v@),
            end@ == END_MARK@,
            rs@.len() == ls.len(),
            forall|j: int| #![trigger rs@[j]] 0 <= j < rs@.len() ==> rs@[j].0 <= rs@[j].1 <= v@.len(),
            forall|j: int|
                #![trigger rs@[j]]
                0 <= j < rs@.len() ==> v@.subrange(rs@[j].0 as int, rs@[j].1 as int) == ls[j],
            kend <= rs@.len(),
            closed_prefix_len(ls) == closed_prefix_len(ls.take(kend as int)),
        ensures
            kend <= rs@.len(),
            closed_prefix_len(ls) == kend,
        decreases kend,
    {
        let (a, b) = rs[kend - 1];
        assert(v@.subrange(rs@[kend - 1].0 as int, rs@[kend - 1].1 as int) == ls[kend - 1]);
        let (lo, hi) = trim_bounds(&v, a, b);
        assert(ls.take(kend as int).last() == ls[kend - 1]);
        if range_eq(&v, lo, hi, &end) {
            break;
        }
        assert(ls.take(kend as int).drop_last() =~= ls.take(kend - 1));
        kend = kend - 1;
        if kend == 0 {
            assert(ls.take(0) =~= Seq::<Seq<char>>::empty());
        }
    }
    let mut out = String::new();
    let mut inside = false;
    let mut ends_nl = false;
    let mut k: usize = 0;
    assert(ls.take(0) =~= Seq::<Seq<char>>::empty());
    while k < kend
        invariant
            ls == lines(v@),
            v@ == existing@,
            begin@ == BEGIN_MARK@,
            end@ == END_MARK@,
            rs@.len() == ls.len(),
            kend <= rs@.len(),
            forall|j: int| #![trigger rs@[j]] 0 <= j < rs@.len() ==> rs@[j].0 <= rs@[j].1 <= v@.len(),
            forall|j: int|
                #![trigger rs@[j]]
                0 <= j < rs@.len() ==> v@.subrange(rs@[j].0 as int, rs@[j].1 as int) == ls[j],
            0 <= k <= kend,
            scan_from((Seq::empty(), false), ls.take(k as int)).1 == inside,
            out@ == join_lines(scan_from((Seq::empty(), false), ls.take(k as int)).0),
            ends_nl == (out@.len() > 0 && out@.last() == '\n'),
        decreases kend - k,
    {
        let (a, b) = rs[k];
        assert(v@.subrange(rs@[k as int].0 as int, rs@[k as int].1 as int) == ls[k as int]);
        let (lo, hi) = trim_bounds(&v, a, b);
        assert(ls.take(k + 1).drop_last() =~= ls.take(k as int));
        assert(ls.take(k + 1).last() == ls[k as int]);
        if range_eq(&v, lo, hi, &begin) {
            inside = true;
        } else if inside {
            if range_eq(&v, lo, hi, &end) {
                inside = false;
            }
        } else {
            let ghost kept = scan_from((Seq::empty(), false), ls.take(k as int)).0;
            assert(kept.push(ls[k as int]).drop_last() =~= kept);
            assert(kept.push(ls[k as int]).last() == ls[k as int]);
            push_range(&mut out, &v, a, b);
            push_char(&mut out, '\n');
            ends_nl = true;
        }
        k = k + 1;
    }
    let ghost head = scan_from((Seq::empty(), false), ls.take(kend as int)).0;
    assert(ls.subrange(kend as int, kend as int) =~= Seq::<Seq<char>>::empty());
    assert(head + without_begins(ls.subrange(kend as int, kend as int)) =~= head);
    while k < rs.len()
        invariant
            ls == lines(v@),
            begin@ == BEGIN_MARK@,
            rs@.len() == ls.len(),
            forall|j: int| #![trigger rs@[j]] 0 <= j < rs@.len() ==> rs@[j].0 <= rs@[j].1 <= v@.len(),
            forall|j: int|
                #![trigger rs@[j]]
                0 <= j < rs@.len() ==> v@.subrange(rs@[j].0 as int, rs@[j].1 as int) == ls[j],
            kend <= k <= rs@.len(),
            out@ == join_lines(head + without_begins(ls.subrange(kend as int, k as int))),
            ends_nl == (out@.len() > 0 && out@.last() == '\n'),
        decreases rs@.len() - k,
    {
        let (a, b) = rs[k];
        assert(v@.subrange(rs@[k as int].0 as int, rs@[k as int].1 as int) == ls[k as int]);
        let ghost sub = ls.subrange(kend as int, k + 1);
        assert(sub.drop_last() =~= ls.subrange(kend as int, k as int));
        assert(sub.last() == ls[k as int]);
        let (lo, hi) = trim_bounds(&v, a, b);
        if !range_eq(&v, lo, hi, &begin) {
            let ghost prev = head + without_begins(ls.subrange(kend as int, k as int));
            assert(prev.push(ls[k as int]) =~= head + without_begins(sub));
            assert(prev.push(ls[k as int]).drop_last() =~= prev);
            push_range(&mut out, &v, a, b);
            push_char(&mut out, '\n');
            ends_nl = true;
        }
        k = k + 1;
    }
    assert(ls.subrange(kend as int, rs@.len() as int) =~= ls.skip(kend as int));
    match new_block {
        None => {},
        Some(cmd) => {
            if !ends_nl {
                push_char(&mut out, '\n');
            }
            out.append(BEGIN_MARK);
            push_char(&mut out, '\n');
            out.append(cmd);
            push_char(&mut out, '\n');
            out.append(END_MARK);
            push_char(&mut out, '\n');
        },
    }
    out
}

// ---------------------------------------------------------------------------
// Laws of the rewrite
// ---------------------------------------------------------------------------

proof fn lemma_closed_prefix_len_bound(ls: Seq<Seq<char>>)
    ensures
        closed_prefix_len(ls) <= ls.len(),
    decreases ls.len(),
{
    if ls.len() > 0 {
        lemma_closed_prefix_len_bound(ls.drop_last());
    }
}

/// No line of the alias line `cmd`, as the scan reads it back, trims to the
/// end mark (which would close the block early).
pub open spec fn block_safe(cmd: Seq<char>) -> bool {
    forall|j: int|
        0 <= j < lines(cmd + seq!['\n']).len() ==> trim(#[trigger] lines(cmd + seq!['\n'])[j])
            != END_MARK@
}

/// No unmanaged line of `text` ends with a carriage return (which a
/// rewrite would turn into a line ending).
pub open spec fn no_stray_cr(text: Seq<char>) -> bool {
    forall|j: int|
        0 <= j < unmanaged_lines(text).len() ==> !(#[trigger] unmanaged_lines(text)[j].len() > 0
            && unmanaged_lines(text)[j].last() == '\r')
}

/// A line that the scan keeps unchanged when it is outside a block.
pub open spec fn plain_line(l: Seq<char>) -> bool {
    no_newline(l) && trim(l) != BEGIN_MARK@
}

/// The unmanaged lines that a rewrite of `text` with a new block leaves:
/// those of `text`, or a single empty line when there were none.
pub open spec fn lines_before_block(text: Seq<char>) -> Seq<Seq<char>> {
    if unmanaged_lines(text).len() > 0 {
        unmanaged_lines(text)
    } else {
        seq![Seq::empty()]
    }
}

proof fn lemma_marks()
    ensures
        trim(BEGIN_MARK@) == BEGIN_MARK@,
        trim(END_MARK@) == END_MARK@,
        BEGIN_MARK@ != END_MARK@,
        no_newline(BEGIN_MARK@),
        no_newline(END_MARK@),
        strip_cr(BEGIN_MARK@) == BEGIN_MARK@,
        strip_cr(END_MARK@) == END_MARK@,
        trim(Seq::<char>::empty()) != BEGIN_MARK@,
{
    reveal_strlit("# >>> amnia-desktop alias (managed) >>>");
    reveal_strlit("# <<< amnia-desktop alias (managed) <<<");
    assert(BEGIN_MARK@[2] != END_MARK@[2]);
}

proof fn lemma_scan_append(st: (Seq<Seq<char>>, bool), a: Seq<Seq<char>>, b: Seq<Seq<char>>)
    ensures
        scan_from(st, a + b) == scan_from(scan_from(st, a), b),
    decreases b.len(),
{
    if b.len() == 0 {
        assert(a + b =~= a);
    } else {
        lemma_scan_append(st, a, b.drop_last());
        assert((a + b).drop_last() =~= a + b.drop_last());
        assert((a + b).last() == b.last());
    }
}

proof fn lemma_scan_plain(p: Seq<Seq<char>>, ls: Seq<Seq<char>>)
    requires
        forall|j: int| 0 <= j < ls.len() ==> trim(#[trigger] ls[j]) != BEGIN_MARK@,
    ensures
        scan_from((p, false), ls) == (p + ls, false),
    decreases ls.len(),
{
    if ls.len() == 0 {
        assert(p + ls =~= p);
    } else {
        assert(trim(ls[ls.len() - 1]) != BEGIN_MARK@);
        lemma_scan_plain(p, ls.drop_last());
        assert((p + ls.drop_last()).push(ls.last()) =~= p + ls);
    }
}

proof fn lemma_scan_inside(p: Seq<Seq<char>>, ls: Seq<Seq<char>>)
    requires
        forall|j: int| 0 <= j < ls.len() ==> trim(#[trigger] ls[j]) != END_MARK@,
    ensures
        scan_from((p, true), ls) == (p, true),
    decreases ls.len(),
{
    if ls.len() > 0 {
        assert(trim(ls[ls.len() - 1]) != END_MARK@);
        lemma_scan_inside(p, ls.drop_last());
    }
}

proof fn lemma_scan_kept(st: (Seq<Seq<char>>, bool), ls: Seq<Seq<char>>)
    requires
        forall|j: int| 0 <= j < st.0.len() ==> plain_line(#[trigger] st.0[j]),
        forall|j: int| 0 <= j < ls.len() ==> no_newline(#[trigger] ls[j]),
    ensures
        forall|j: int|
            0 <= j < scan_from(st, ls).0.len() ==> plain_line(#[trigger] scan_from(st, ls).0[j]),
    decreases ls.len(),
{
    if ls.len() > 0 {
        let l = ls.last();
        assert(no_newline(ls[ls.len() - 1]));
        assert forall|j: int| 0 <= j < ls.drop_last().len() implies no_newline(
            #[trigger] ls.drop_last()[j],
        ) by {
            assert(no_newline(ls[j]));
        }
        lemma_scan_kept(st, ls.drop_last());
        let prev = scan_from(st, ls.drop_last());
        let next = scan_from(st, ls);
        assert forall|j: int| 0 <= j < next.0.len() implies plain_line(#[trigger] next.0[j]) by {
            if j < prev.0.len() {
                assert(next.0[j] == prev.0[j]);
            }
        }
    }
}

/// No block closes after the last end mark, and a line there is no end mark.
proof fn lemma_after_last_end(ls: Seq<Seq<char>>)
    ensures
        closed_prefix_len(ls) <= ls.len(),
        forall|i: int| closed_prefix_len(ls) <= i < ls.len() ==> trim(#[trigger] ls[i]) != END_MARK@,
    decreases ls.len(),
{
    if ls.len() > 0 {
        lemma_after_last_end(ls.drop_last());
        if trim(ls.last()) != END_MARK@ {
            assert forall|i: int| closed_prefix_len(ls) <= i < ls.len() implies trim(
                #[trigger] ls[i],
            ) != END_MARK@ by {
                if i < ls.len() - 1 {
                    assert(ls[i] == ls.drop_last()[i]);
                }
            }
        }
    }
}

/// Lines without an end mark, appended, leave the closed prefix as it was.
proof fn lemma_closed_prefix_append(a: Seq<Seq<char>>, b: Seq<Seq<char>>)
    requires
        forall|j: int| 0 <= j < b.len() ==> trim(#[trigger] b[j]) != END_MARK@,
    ensures
        closed_prefix_len(a + b) == closed_prefix_len(a),
    decreases b.len(),
{
    if b.len() == 0 {
        assert(a + b =~= a);
    } else {
        assert(trim(b[b.len() - 1]) != END_MARK@);
        assert forall|j: int| 0 <= j < b.drop_last().len() implies trim(
            #[trigger] b.drop_last()[j],
        ) != END_MARK@ by {
            assert(b.drop_last()[j] == b[j]);
        }
        lemma_closed_prefix_append(a, b.drop_last());
        assert((a + b).drop_last() =~= a + b.drop_last());
        assert((a + b).last() == b.last());
    }
}

/// Without its begin marks, a sequence holds no begin mark; its lines are
/// lines of the sequence; and a sequence without begin marks stays as it is.
proof fn lemma_without_begins(ls: Seq<Seq<char>>)
    ensures
        forall|j: int|
            0 <= j < without_begins(ls).len() ==> trim(#[trigger] without_begins(ls)[j])
                != BEGIN_MARK@,
        (forall|i: int| 0 <= i < ls.len() ==> trim(#[trigger] ls[i]) != END_MARK@ && no_newline(
            ls[i],
        )) ==> forall|j: int|
            0 <= j < without_begins(ls).len() ==> trim(#[trigger] without_begins(ls)[j])
                != END_MARK@ && no_newline(without_begins(ls)[j]),
        (forall|i: int| 0 <= i < ls.len() ==> trim(#[trigger] ls[i]) != BEGIN_MARK@)
            ==> without_begins(ls) == ls,
    decreases ls.len(),
{
    if ls.len() == 0 {
        assert(without_begins(ls) =~= ls);
    } else {
        let l0 = ls.drop_last();
        lemma_without_begins(l0);
        let w0 = without_begins(l0);
        let w = without_begins(ls);
        assert forall|j: int| 0 <= j < w.len() implies trim(#[trigger] w[j]) != BEGIN_MARK@ by {
            if j < w0.len() {
                assert(w[j] == w0[j]);
            }
        }
        if forall|i: int| 0 <= i < ls.len() ==> trim(#[trigger] ls[i]) != END_MARK@ && no_newline(
            ls[i],
        ) {
            assert forall|i: int| 0 <= i < l0.len() implies trim(#[trigger] l0[i]) != END_MARK@
                && no_newline(l0[i]) by {
                assert(l0[i] == ls[i]);
            }
            assert(trim(ls[ls.len() - 1]) != END_MARK@ && no_newline(ls[ls.len() - 1]));
            assert forall|j: int| 0 <= j < w.len() implies trim(#[trigger] w[j]) != END_MARK@
                && no_newline(w[j]) by {
                if j < w0.len() {
                    assert(w[j] == w0[j]);
                }
            }
        }
        if forall|i: int| 0 <= i < ls.len() ==> trim(#[trigger] ls[i]) != BEGIN_MARK@ {
            assert forall|i: int| 0 <= i < l0.len() implies trim(#[trigger] l0[i]) != BEGIN_MARK@ by {
                assert(l0[i] == ls[i]);
            }
            assert(trim(ls[ls.len() - 1]) != BEGIN_MARK@);
            assert(w =~= ls);
        }
    }
}

/// The kept lines are the scan's kept lines, all plain, followed by the
/// lines after the last end mark but its begin marks, none of which is an
/// end mark; so every kept line is plain.
proof fn lemma_kept_shape(ls: Seq<Seq<char>>)
    requires
        forall|j: int| 0 <= j < ls.len() ==> no_newline(#[trigger] ls[j]),
    ensures
        forall|j: int|
            0 <= j < scan_from((Seq::empty(), false), ls.take(closed_prefix_len(ls) as int)).0.len()
                ==> plain_line(
                #[trigger] scan_from((Seq::empty(), false), ls.take(closed_prefix_len(ls) as int)).0[j],
            ),
        forall|j: int|
            0 <= j < without_begins(ls.skip(closed_prefix_len(ls) as int)).len() ==> trim(
                #[trigger] without_begins(ls.skip(closed_prefix_len(ls) as int))[j],
            ) != END_MARK@ && plain_line(without_begins(ls.skip(closed_prefix_len(ls) as int))[j]),
        forall|j: int| 0 <= j < kept_lines(ls).len() ==> plain_line(#[trigger] kept_lines(ls)[j]),
{
    lemma_after_last_end(ls);
    let k = closed_prefix_len(ls) as int;
    let pre = ls.take(k);
    assert forall|j: int| 0 <= j < pre.len() implies no_newline(#[trigger] pre[j]) by {
        assert(pre[j] == ls[j]);
    }
    lemma_scan_kept((Seq::empty(), false), pre);
    let p = scan_from((Seq::empty(), false), pre).0;
    let suf = ls.skip(k);
    assert forall|j: int| 0 <= j < suf.len() implies trim(#[trigger] suf[j]) != END_MARK@
        && no_newline(suf[j]) by {
        assert(suf[j] == ls[k + j]);
    }
    lemma_without_begins(suf);
    let w = without_begins(suf);
    assert forall|j: int| 0 <= j < kept_lines(ls).len() implies plain_line(
        #[trigger] kept_lines(ls)[j],
    ) by {
        if j < p.len() {
            assert(kept_lines(ls)[j] == p[j]);
            assert(plain_line(p[j]));
        } else {
            assert(kept_lines(ls)[j] == w[j - p.len()]);
        }
    }
}

/// Removing the managed block keeps exactly the unmanaged lines.
pub proof fn law_removal_keeps_unmanaged_lines(text: Seq<char>)
    requires
        no_stray_cr(text),
    ensures
        unmanaged_lines(rewritten(text, None)) == unmanaged_lines(text),
{
    let ls0 = lines(text);
    let ks = unmanaged_lines(text);
    lemma_lines_no_newline(text);
    lemma_kept_shape(ls0);
    lemma_marks();
    let kp0 = closed_prefix_len(ls0) as int;
    let p = scan_from((Seq::empty(), false), ls0.take(kp0)).0;
    let suf = without_begins(ls0.skip(kp0));
    lemma_split_join(ks, Seq::empty());
    let t = join_lines(ks);
    assert(t + Seq::<char>::empty() =~= t);
    let g = split_on(t, '\n');
    assert(g.drop_last() =~= ks);
    assert(lines(t) =~= ks) by {
        assert forall|j: int| 0 <= j < ks.len() implies #[trigger] lines(t)[j] == ks[j] by {
            assert(lines(t)[j] == strip_cr(g[j]));
        }
    }
    // The kept lines of the rewritten text are the kept lines themselves.
    lemma_closed_prefix_append(p, suf);
    lemma_after_last_end(p);
    let kp = closed_prefix_len(p) as int;
    assert(ks.take(kp) =~= p.take(kp));
    assert forall|j: int| 0 <= j < p.take(kp).len() implies trim(#[trigger] p.take(kp)[j])
        != BEGIN_MARK@ by {
        assert(p.take(kp)[j] == p[j]);
        assert(plain_line(p[j]));
    }
    lemma_scan_plain(Seq::empty(), p.take(kp));
    assert(Seq::<Seq<char>>::empty() + p.take(kp) =~= p.take(kp));
    assert forall|i: int| 0 <= i < ks.skip(kp).len() implies trim(#[trigger] ks.skip(kp)[i])
        != BEGIN_MARK@ by {
        assert(ks.skip(kp)[i] == ks[kp + i]);
    }
    lemma_without_begins(ks.skip(kp));
    assert(p.take(kp) + ks.skip(kp) =~= ks);
}

/// Writing a block keeps the unmanaged lines in front of it (a single empty
/// line stands in for none), and the block itself is read back as managed.
pub proof fn law_block_keeps_unmanaged_lines(text: Seq<char>, cmd: Seq<char>)
    requires
        no_stray_cr(text),
        block_safe(cmd),
    ensures
        unmanaged_lines(rewritten(text, Some(cmd))) == lines_before_block(text),
{
    let ks = unmanaged_lines(text);
    let k2 = lines_before_block(text);
    lemma_lines_no_newline(text);
    lemma_kept_shape(lines(text));
    lemma_marks();
    lemma_join_ends(ks);
    assert forall|j: int| 0 <= j < k2.len() implies plain_line(#[trigger] k2[j]) by {
        if ks.len() > 0 {
            assert(plain_line(ks[j]));
        } else {
            assert(k2[j] == Seq::<char>::empty());
        }
    }
    assert forall|j: int| 0 <= j < k2.len() implies no_newline(#[trigger] k2[j]) by {
        assert(plain_line(k2[j]));
    }
    // The text in front of the block is the join of `k2`.
    let out = join_lines(ks);
    let front = if out.len() > 0 && out.last() == '\n' {
        out
    } else {
        out.push('\n')
    };
    if ks.len() == 0 {
        assert(seq![Seq::<char>::empty()].drop_last() =~= Seq::<Seq<char>>::empty());
        assert(join_lines(Seq::<Seq<char>>::empty()) =~= Seq::<char>::empty());
        assert(join_lines(k2) =~= seq!['\n']);
        assert(front =~= seq!['\n']);
    }
    assert(front == join_lines(k2));
    let mb = managed_block(cmd);
    let t = rewritten(text, Some(cmd));
    assert(t == join_lines(k2) + mb);
    lemma_split_join(k2, mb);
    // The block splits into the begin mark, the pieces of `cmd`, and the end mark.
    let bm = BEGIN_MARK@;
    let em = END_MARK@;
    let sc = split_on(cmd, '\n');
    assert(mb =~= bm + seq!['\n'] + (cmd + seq!['\n'] + (em + seq!['\n'] + Seq::<char>::empty())));
    lemma_split_append_sep(bm, cmd + seq!['\n'] + (em + seq!['\n'] + Seq::<char>::empty()), '\n');
    lemma_split_append_sep(cmd, em + seq!['\n'] + Seq::<char>::empty(), '\n');
    lemma_split_append_sep(em, Seq::<char>::empty(), '\n');
    lemma_split_single(bm, '\n');
    lemma_split_single(em, '\n');
    let g = split_on(t, '\n');
    assert(g =~= k2 + seq![bm] + sc + seq![em] + seq![Seq::<char>::empty()]);
    let c = lines(cmd + seq!['\n']);
    lemma_lines_terminated(cmd);
    let ls = k2 + seq![bm] + c + seq![em];
    assert(g.drop_last() =~= k2 + seq![bm] + sc + seq![em]);
    assert(lines(t) =~= ls) by {
        assert forall|j: int| 0 <= j < ls.len() implies #[trigger] lines(t)[j] == ls[j] by {
            assert(lines(t)[j] == strip_cr(g[j]));
            if j < k2.len() {
                if ks.len() > 0 {
                    assert(k2[j] == ks[j]);
                    assert(!(ks[j].len() > 0 && ks[j].last() == '\r'));
                }
            } else if j > k2.len() && j < k2.len() + 1 + sc.len() {
                assert(c[j - k2.len() - 1] == strip_cr(sc[j - k2.len() - 1]));
            }
        }
    }
    // The scan keeps `k2`, then opens, stays in, and closes the block.
    assert forall|j: int| 0 <= j < k2.len() implies trim(#[trigger] k2[j]) != BEGIN_MARK@ by {
        assert(plain_line(k2[j]));
    }
    assert forall|j: int| 0 <= j < c.len() implies trim(#[trigger] c[j]) != END_MARK@ by {
        assert(trim(lines(cmd + seq!['\n'])[j]) != END_MARK@);
    }
    let init = (Seq::<Seq<char>>::empty(), false);
    lemma_scan_append(init, k2 + seq![bm] + c, seq![em]);
    lemma_scan_append(init, k2 + seq![bm], c);
    lemma_scan_append(init, k2, seq![bm]);
    lemma_scan_plain(Seq::empty(), k2);
    assert(Seq::<Seq<char>>::empty() + k2 =~= k2);
    assert(seq![bm].drop_last() =~= Seq::<Seq<char>>::empty());
    assert(seq![em].drop_last() =~= Seq::<Seq<char>>::empty());
    lemma_scan_inside(k2, c);
    let s1 = scan_from(init, k2);
    assert(s1 == (k2, false));
    assert(scan_from(s1, Seq::<Seq<char>>::empty()) == s1);
    assert(seq![bm].last() == bm);
    assert(scan_from(s1, seq![bm]) == scan_step(s1, bm));
    let s2 = scan_from(init, k2 + seq![bm]);
    assert(s2 == (k2, true));
    let s3 = scan_from(init, k2 + seq![bm] + c);
    assert(s3 == (k2, true));
    assert(scan_from(s3, Seq::<Seq<char>>::empty()) == s3);
    assert(seq![em].last() == em);
    assert(scan_from(s3, seq![em]) == scan_step(s3, em));
    assert(scan_from(init, ls) == (k2, false));
    assert(ls.last() == em);
    assert(closed_prefix_len(ls) == ls.len());
    assert(ls.take(ls.len() as int) =~= ls);
    assert(ls.skip(ls.len() as int) =~= Seq::<Seq<char>>::empty());
    assert(k2 + Seq::<Seq<char>>::empty() =~= k2);
    assert(unmanaged_lines(t) == scan_from(init, lines(t)).0 + Seq::<Seq<char>>::empty());
}

/// A rewrite with a block replaces whatever block an earlier rewrite left:
/// rewriting the result of a rewrite gives what rewriting the original text
/// gives. (Removing the block after a write needs at least one unmanaged
/// line: a write to a file without one leaves an empty line in front of the
/// block.)
pub proof fn law_rewrite_replaces_block(
    text: Seq<char>,
    cmd: Seq<char>,
    new_block: Option<Seq<char>>,
)
    requires
        no_stray_cr(text),
        block_safe(cmd),
        new_block is Some || unmanaged_lines(text).len() > 0,
    ensures
        rewritten(rewritten(text, Some(cmd)), new_block) == rewritten(text, new_block),
{
    law_block_keeps_unmanaged_lines(text, cmd);
    let ks = unmanaged_lines(text);
    lemma_join_ends(ks);
    if ks.len() == 0 {
        assert(seq![Seq::<char>::empty()].drop_last() =~= Seq::<Seq<char>>::empty());
        assert(join_lines(Seq::<Seq<char>>::empty()) =~= Seq::<char>::empty());
        assert(join_lines(seq![Seq::<char>::empty()]) =~= seq!['\n']);
        assert(join_lines(ks).push('\n') =~= seq!['\n']);
    }
}

/// Writing the same block twice is the same as writing it once.
pub proof fn law_rewrite_idempotent(text: Seq<char>, cmd: Seq<char>)
    requires
        no_stray_cr(text),
        block_safe(cmd),
    ensures
        rewritten(rewritten(text, Some(cmd)), Some(cmd)) == rewritten(text, Some(cmd)),
{
    law_rewrite_replaces_block(text, cmd, Some(cmd));
}

/// A rewrite after a removal is the same as the rewrite alone.
pub proof fn law_removal_then_rewrite(text: Seq<char>, new_block: Option<Seq<char>>)
    requires
        no_stray_cr(text),
    ensures
        rewritten(rewritten(text, None), new_block) == rewritten(text, new_block),
{
    law_removal_keeps_unmanaged_lines(text);
}

/// The alias line for a valid alias name and a sidecar path without line
/// feeds is a single line that cannot close the block early, so the laws
/// of the rewrite hold for the blocks that registering an alias writes.
pub proof fn law_alias_line_is_block_safe(name: &str, sidecar: Seq<char>)
    requires
        alias_name_error(name) is None,
        no_newline(sidecar),
    ensures
        block_safe(alias_line(name@, sidecar)),
{
    reveal_strlit("alias ");
    reveal_strlit("='python3 ");
    reveal_strlit(" \"$@\"'");
    reveal_strlit("# <<< amnia-desktop alias (managed) <<<");
    let c = alias_line(name@, sidecar);
    assert forall|i: int| 0 <= i < name@.len() implies name@[i] != '\n' by {
        assert(is_alias_char(name@[i]));
    }
    assert(no_newline("alias "@));
    assert(no_newline("='python3 "@));
    assert(no_newline(" \"$@\"'"@));
    lemma_no_newline_concat("alias "@, name@);
    lemma_no_newline_concat("alias "@ + name@, "='python3 "@);
    lemma_no_newline_concat("alias "@ + name@ + "='python3 "@, sidecar);
    lemma_no_newline_concat("alias "@ + name@ + "='python3 "@ + sidecar, " \"$@\"'"@);
    assert(no_newline(c));
    lemma_lines_terminated(c);
    lemma_split_single(c, '\n');
    assert(c.last() == '\'');
    assert(strip_cr(c) == c);
    assert(lines(c + seq!['\n']) =~= seq![c]);
    assert(c[0] == 'a');
    lemma_trim_keeps_first(c);
    assert(trim(c) != END_MARK@) by {
        assert(END_MARK@[0] == '#');
    }
}

/// Registering an alias over an earlier registration leaves the rc text as
/// registering it alone; registering the same alias twice changes nothing.
pub proof fn law_register_alias_replaces(
    text: Seq<char>,
    earlier: &str,
    name: &str,
    sidecar: Seq<char>,
)
    requires
        no_stray_cr(text),
        alias_name_error(earlier) is None,
        alias_name_error(name) is None,
        no_newline(sidecar),
    ensures
        rewritten(
            rewritten(text, Some(alias_line(earlier@, sidecar))),
            Some(alias_line(name@, sidecar)),
        ) == rewritten(text, Some(alias_line(name@, sidecar))),
        rewritten(
            rewritten(text, Some(alias_line(name@, sidecar))),
            Some(alias_line(name@, sidecar)),
        ) == rewritten(text, Some(alias_line(name@, sidecar))),
{
    law_alias_line_is_block_safe(earlier, sidecar);
    law_alias_line_is_block_safe(name, sidecar);
    law_rewrite_replaces_block(text, alias_line(earlier@, sidecar), Some(alias_line(name@, sidecar)));
    law_rewrite_idempotent(text, alias_line(name@, sidecar));
}

// ---------------------------------------------------------------------------
// The lines that a rewrite keeps
// ---------------------------------------------------------------------------

/// Line `i` of `ls` trims to the begin mark.
pub open spec fn is_begin(ls: Seq<Seq<char>>, i: int) -> bool {
    trim(ls[i]) == BEGIN_MARK@
}

/// Line `i` of `ls` trims to the end mark.
pub open spec fn is_end(ls: Seq<Seq<char>>, i: int) -> bool {
    trim(ls[i]) == END_MARK@
}

/// Line `i` of `ls` lies in a closed block: between a begin mark and the
/// first end mark after it, both included.
pub open spec fn in_closed_block(ls: Seq<Seq<char>>, i: int) -> bool {
    exists|a: int, b: int|
        #![trigger is_begin(ls, a), is_end(ls, b)]
        0 <= a <= i <= b < ls.len() && is_begin(ls, a) && is_end(ls, b) && forall|j: int|
            #![trigger is_end(ls, j)]
            a < j < b ==> !is_end(ls, j)
}

/// The first `n` lines of `ls` that lie in no closed block and are no
/// begin mark, in order.
pub open spec fn lines_outside_blocks(ls: Seq<Seq<char>>, n: int) -> Seq<Seq<char>>
    decreases n,
{
    if n <= 0 {
        Seq::empty()
    } else {
        let prev = lines_outside_blocks(ls, n - 1);
        if in_closed_block(ls, n - 1) || is_begin(ls, n - 1) {
            prev
        } else {
            prev.push(ls[n - 1])
        }
    }
}

/// A block is open just before line `n`: a begin mark before it, and no end
/// mark since.
spec fn open_before(ls: Seq<Seq<char>>, n: int) -> bool {
    exists|a: int|
        #![trigger is_begin(ls, a)]
        0 <= a < n && is_begin(ls, a) && forall|j: int|
            #![trigger is_end(ls, j)]
            a < j < n ==> !is_end(ls, j)
}

/// The scan drops line `i`: it is a begin mark, or a block is open before it.
spec fn dropped(ls: Seq<Seq<char>>, i: int) -> bool {
    exists|a: int|
        #![trigger is_begin(ls, a)]
        0 <= a <= i && is_begin(ls, a) && forall|j: int|
            #![trigger is_end(ls, j)]
            a < j < i ==> !is_end(ls, j)
}

/// The first `n` lines of `ls` that the scan keeps.
spec fn scan_kept(ls: Seq<Seq<char>>, n: int) -> Seq<Seq<char>>
    decreases n,
{
    if n <= 0 {
        Seq::empty()
    } else {
        let prev = scan_kept(ls, n - 1);
        if dropped(ls, n - 1) {
            prev
        } else {
            prev.push(ls[n - 1])
        }
    }
}

proof fn lemma_scan_prefix(ls: Seq<Seq<char>>, n: int)
    requires
        0 <= n <= ls.len(),
    ensures
        scan_from((Seq::empty(), false), ls.take(n)) == (scan_kept(ls, n), open_before(ls, n)),
    decreases n,
{
    if n == 0 {
        assert(ls.take(0) =~= Seq::<Seq<char>>::empty());
        assert(!open_before(ls, 0));
    } else {
        let m = n - 1;
        lemma_scan_prefix(ls, m);
        assert(ls.take(n).drop_last() =~= ls.take(m));
        assert(ls.take(n).last() == ls[m]);
        if is_begin(ls, m) {
            assert(dropped(ls, m));
            assert(open_before(ls, n));
        } else if open_before(ls, m) {
            let a = choose|a: int|
                #![trigger is_begin(ls, a)]
                0 <= a < m && is_begin(ls, a) && forall|j: int|
                    #![trigger is_end(ls, j)]
                    a < j < m ==> !is_end(ls, j);
            assert(dropped(ls, m));
            if is_end(ls, m) {
                assert(!open_before(ls, n)) by {
                    if open_before(ls, n) {
                        let a2 = choose|a2: int|
                            #![trigger is_begin(ls, a2)]
                            0 <= a2 < n && is_begin(ls, a2) && forall|j: int|
                                #![trigger is_end(ls, j)]
                                a2 < j < n ==> !is_end(ls, j);
                        assert(a2 != m);
                        assert(!is_end(ls, m));
                    }
                }
            } else {
                assert(open_before(ls, n));
            }
        } else {
            assert(!dropped(ls, m)) by {
                if dropped(ls, m) {
                    let a = choose|a: int|
                        #![trigger is_begin(ls, a)]
                        0 <= a <= m && is_begin(ls, a) && forall|j: int|
                            #![trigger is_end(ls, j)]
                            a < j < m ==> !is_end(ls, j);
                    assert(a != m);
                    assert(open_before(ls, m));
                }
            }
            assert(!open_before(ls, n)) by {
                if open_before(ls, n) {
                    let a = choose|a: int|
                        #![trigger is_begin(ls, a)]
                        0 <= a < n && is_begin(ls, a) && forall|j: int|
                            #![trigger is_end(ls, j)]
                            a < j < n ==> !is_end(ls, j);
                    assert(a != m);
                    assert(open_before(ls, m));
                }
            }
        }
    }
}

/// The first end mark at or after line `i`, or the number of lines.
spec fn first_end_from(ls: Seq<Seq<char>>, i: int) -> int
    decreases ls.len() - i,
{
    if i >= ls.len() {
        ls.len() as int
    } else if is_end(ls, i) {
        i
    } else {
        first_end_from(ls, i + 1)
    }
}

proof fn lemma_first_end_from(ls: Seq<Seq<char>>, i: int)
    requires
        0 <= i <= ls.len(),
    ensures
        i <= first_end_from(ls, i) <= ls.len(),
        first_end_from(ls, i) < ls.len() ==> is_end(ls, first_end_from(ls, i)),
        forall|j: int| #![trigger is_end(ls, j)] i <= j < first_end_from(ls, i) ==> !is_end(ls, j),
    decreases ls.len() - i,
{
    if i < ls.len() && !is_end(ls, i) {
        lemma_first_end_from(ls, i + 1);
    }
}

/// Before the last end mark, the scan drops exactly the lines in closed
/// blocks; after it, no line lies in a closed block.
proof fn lemma_dropped_in_block(ls: Seq<Seq<char>>, i: int)
    requires
        0 <= i < ls.len(),
    ensures
        i < closed_prefix_len(ls) ==> (dropped(ls, i) <==> in_closed_block(ls, i)),
        i >= closed_prefix_len(ls) ==> !in_closed_block(ls, i),
{
    lemma_after_last_end(ls);
    let k = closed_prefix_len(ls) as int;
    if i < k {
        lemma_last_end(ls);
        lemma_first_end_from(ls, i);
        let b = first_end_from(ls, i);
        assert(b <= k - 1) by {
            if b > k - 1 {
                assert(!is_end(ls, k - 1));
            }
        }
        if dropped(ls, i) {
            let a = choose|a: int|
                #![trigger is_begin(ls, a)]
                0 <= a <= i && is_begin(ls, a) && forall|j: int|
                    #![trigger is_end(ls, j)]
                    a < j < i ==> !is_end(ls, j);
            assert forall|j: int| #![trigger is_end(ls, j)] a < j < b implies !is_end(ls, j) by {
                if j >= i {
                }
            }
            assert(in_closed_block(ls, i));
        }
        if in_closed_block(ls, i) {
            let (a, b2) = choose|a: int, b2: int|
                #![trigger is_begin(ls, a), is_end(ls, b2)]
                0 <= a <= i <= b2 < ls.len() && is_begin(ls, a) && is_end(ls, b2) && forall|j: int|
                    #![trigger is_end(ls, j)]
                    a < j < b2 ==> !is_end(ls, j);
            assert(dropped(ls, i));
        }
    } else {
        if in_closed_block(ls, i) {
            let (a, b2) = choose|a: int, b2: int|
                #![trigger is_begin(ls, a), is_end(ls, b2)]
                0 <= a <= i <= b2 < ls.len() && is_begin(ls, a) && is_end(ls, b2) && forall|j: int|
                    #![trigger is_end(ls, j)]
                    a < j < b2 ==> !is_end(ls, j);
            assert(trim(ls[b2]) != END_MARK@);
        }
    }
}

/// The closed prefix, when there is one, ends with an end mark.
proof fn lemma_last_end(ls: Seq<Seq<char>>)
    ensures
        closed_prefix_len(ls) > 0 ==> is_end(ls, closed_prefix_len(ls) - 1),
    decreases ls.len(),
{
    if ls.len() > 0 && trim(ls.last()) != END_MARK@ {
        lemma_last_end(ls.drop_last());
        lemma_after_last_end(ls.drop_last());
        if closed_prefix_len(ls) > 0 {
            assert(ls.drop_last()[closed_prefix_len(ls) - 1] == ls[closed_prefix_len(ls) - 1]);
        }
    }
}

proof fn lemma_outside_prefix(ls: Seq<Seq<char>>, n: int)
    requires
        0 <= n <= ls.len(),
    ensures
        n <= closed_prefix_len(ls) ==> lines_outside_blocks(ls, n) == scan_kept(ls, n),
        n >= closed_prefix_len(ls) ==> lines_outside_blocks(ls, n) == scan_kept(
            ls,
            closed_prefix_len(ls) as int,
        ) + without_begins(ls.subrange(closed_prefix_len(ls) as int, n)),
    decreases n,
{
    lemma_after_last_end(ls);
    let k = closed_prefix_len(ls) as int;
    if n == 0 {
        assert(ls.subrange(0, 0) =~= Seq::<Seq<char>>::empty());
        assert(scan_kept(ls, 0) + without_begins(ls.subrange(0, 0)) =~= scan_kept(ls, 0));
    } else {
        lemma_outside_prefix(ls, n - 1);
        lemma_dropped_in_block(ls, n - 1);
        if n - 1 < k && is_begin(ls, n - 1) {
            assert(dropped(ls, n - 1));
        }
        if n > k {
            let base = scan_kept(ls, k);
            let sub = ls.subrange(k, n);
            assert(sub.drop_last() =~= ls.subrange(k, n - 1));
            assert(sub.last() == ls[n - 1]);
            if n - 1 == k {
                assert(ls.subrange(k, k) =~= Seq::<Seq<char>>::empty());
                assert(base + without_begins(ls.subrange(k, k)) =~= base);
            }
            if !is_begin(ls, n - 1) {
                assert((base + without_begins(ls.subrange(k, n - 1))).push(ls[n - 1])
                    =~= base + without_begins(sub));
            }
        } else if n == k {
            assert(ls.subrange(k, k) =~= Seq::<Seq<char>>::empty());
            assert(scan_kept(ls, k) + without_begins(ls.subrange(k, k)) =~= scan_kept(ls, k));
        }
    }
}

/// Every line outside a closed block survives a rewrite, in order, and no
/// other line does, but a begin mark that no end mark follows: that mark
/// opens no block and is dropped alone. The unmanaged lines are these lines,
/// and the rewritten text starts with them, each ended by a line feed.
pub proof fn law_unmanaged_lines_are_those_outside_blocks(
    text: Seq<char>,
    new_block: Option<Seq<char>>,
)
    ensures
        unmanaged_lines(text) == lines_outside_blocks(lines(text), lines(text).len() as int),
        join_lines(lines_outside_blocks(lines(text), lines(text).len() as int)).is_prefix_of(
            rewritten(text, new_block),
        ),
{
    let ls = lines(text);
    lemma_after_last_end(ls);
    let k = closed_prefix_len(ls) as int;
    lemma_scan_prefix(ls, k);
    lemma_outside_prefix(ls, ls.len() as int);
    assert(ls.subrange(k, ls.len() as int) =~= ls.skip(k));
    let out = join_lines(unmanaged_lines(text));
    if let Some(cmd) = new_block {
        let front = if out.len() > 0 && out.last() == '\n' {
            out
        } else {
            out.push('\n')
        };
        assert(rewritten(text, new_block) == front + managed_block(cmd));
        assert(out.is_prefix_of(front));
        assert(out.is_prefix_of(front + managed_block(cmd))) by {
            assert forall|i: int| 0 <= i < out.len() implies #[trigger] (front + managed_block(
                cmd,
            ))[i] == out[i] by {
                assert(front[i] == out[i]);
            }
        }
    }
}

/// A text without managed lines that ends with a line feed (or is empty)
/// and has no line feed after a carriage return: all its lines are
/// unmanaged, none ends with a carriage return, and removing the block gives
/// the text back.
proof fn lemma_clean_text(text: Seq<char>)
    requires
        text.len() == 0 || text.last() == '\n',
        forall|i: int| 0 < i < text.len() && #[trigger] text[i] == '\n' ==> text[i - 1] != '\r',
        forall|j: int|
            0 <= j < lines(text).len() ==> trim(#[trigger] lines(text)[j]) != BEGIN_MARK@ && trim(
                lines(text)[j],
            ) != END_MARK@,
    ensures
        unmanaged_lines(text) == lines(text),
        text.len() > 0 ==> lines(text).len() > 0,
        no_stray_cr(text),
        rewritten(text, None) == text,
{
    let ls = lines(text);
    lemma_closed_prefix_append(Seq::empty(), ls);
    assert(Seq::<Seq<char>>::empty() + ls =~= ls);
    assert(closed_prefix_len(Seq::<Seq<char>>::empty()) == 0);
    assert(ls.take(0) =~= Seq::<Seq<char>>::empty());
    assert(ls.skip(0) =~= ls);
    assert forall|i: int| 0 <= i < ls.skip(0).len() implies trim(#[trigger] ls.skip(0)[i])
        != BEGIN_MARK@ by {
        assert(ls.skip(0)[i] == ls[i]);
    }
    lemma_without_begins(ls.skip(0));
    assert(scan_from((Seq::empty(), false), Seq::<Seq<char>>::empty()).0 + ls =~= ls);
    assert(unmanaged_lines(text) == ls);
    if text.len() > 0 {
        let a = text.drop_last();
        assert(a + seq!['\n'] =~= text);
        lemma_lines_terminated(a);
        lemma_split_ends(a, '\n');
        lemma_join_split(a);
        lemma_split_len(a, '\n');
        let g = split_on(a, '\n');
        assert forall|j: int| 0 <= j < g.len() implies !(#[trigger] g[j].len() > 0 && g[j].last()
            == '\r') by {
            if g[j].len() > 0 {
                let e = split_end(a, '\n', j);
                assert(text[e] == '\n');
                assert(a[e - 1] == g[j].last());
            }
        }
        assert(ls =~= g) by {
            assert forall|j: int| 0 <= j < g.len() implies #[trigger] ls[j] == g[j] by {
                assert(ls[j] == strip_cr(g[j]));
            }
        }
    } else {
        assert(split_on(text, '\n') =~= seq![Seq::<char>::empty()]);
        assert(ls =~= Seq::<Seq<char>>::empty());
    }
}


/// Removing the block from a text without managed lines gives the text
/// back, when it ends with a line feed (or is empty) and no line feed in it
/// follows a carriage return.
pub proof fn law_removal_restores_clean_text(text: Seq<char>)
    requires
        text.len() == 0 || text.last() == '\n',
        forall|i: int| 0 < i < text.len() && #[trigger] text[i] == '\n' ==> text[i - 1] != '\r',
        forall|j: int|
            0 <= j < lines(text).len() ==> trim(#[trigger] lines(text)[j]) != BEGIN_MARK@ && trim(
                lines(text)[j],
            ) != END_MARK@,
    ensures
        rewritten(text, None) == text,
{
    lemma_clean_text(text);
}

/// Registering an alias and then removing it gives back a non-empty rc text
/// without managed lines, when the text ends with a line feed and has no
/// line feed after a carriage return. (An empty text comes back as a single
/// line feed.)
pub proof fn law_register_then_remove_restores(text: Seq<char>, name: &str, sidecar: Seq<char>)
    requires
        text.len() > 0,
        text.last() == '\n',
        forall|i: int| 0 < i < text.len() && #[trigger] text[i] == '\n' ==> text[i - 1] != '\r',
        forall|j: int|
            0 <= j < lines(text).len() ==> trim(#[trigger] lines(text)[j]) != BEGIN_MARK@ && trim(
                lines(text)[j],
            ) != END_MARK@,
        alias_name_error(name) is None,
        no_newline(sidecar),
    ensures
        rewritten(rewritten(text, Some(alias_line(name@, sidecar))), None) == text,
{
    lemma_clean_text(text);
    law_alias_line_is_block_safe(name, sidecar);
    law_rewrite_replaces_block(text, alias_line(name@, sidecar), None);
}

} // verus!
