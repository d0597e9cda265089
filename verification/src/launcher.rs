//! ZCode launch entries and the remote-debugging flag.
//!
//! On Windows the entries are `.lnk` shortcuts whose target is `ZCode.exe`;
//! the flag is added to or removed from their arguments. On macOS the entry
//! is the `ZCode.app` bundle and the flag lives in the switcher's own state.
//! Reading and writing shortcuts and state files is the caller's work; this
//! module decides what to read, write and report.

use vstd::prelude::*;
use crate::json::owned;
use crate::text::{
    is_word, lemma_trim_idempotent, lemma_words_append_word, lemma_words_join, lemma_words_shape,
    lemma_words_trim, no_ws, after_last, chars_of, eq_ignore_ascii_case, eq_ignore_case, extend_chars, has_prefix,
    has_suffix, join, join_chars, split_words, starts_with, string_of, trim, trim_chars, words,
    ends_with, slice_chars,
};

verus! {

/// The flag that opens ZCode's DevTools port.
pub const REMOTE_DEBUG_FLAG: &'static str = "--remote-debugging-port=9229";

/// A ZCode launch entry.
#[derive(Debug)]
pub struct ShortcutInfo {
    pub path: String,
    pub target: String,
    pub arguments: String,
    pub has_flag: bool,
}

pub struct ShortcutView {
    pub path: Seq<char>,
    pub target: Seq<char>,
    pub arguments: Seq<char>,
    pub has_flag: bool,
}

impl View for ShortcutInfo {
    type V = ShortcutView;

    open spec fn view(&self) -> ShortcutView {
        ShortcutView {
            path: self.path@,
            target: self.target@,
            arguments: self.arguments@,
            has_flag: self.has_flag,
        }
    }
}

impl ShortcutInfo {
    /// An independent copy.
    pub fn duplicate(&self) -> (r: ShortcutInfo)
        ensures
            r@ == self@,
    {
        ShortcutInfo {
            path: self.path.clone(),
            target: self.target.clone(),
            arguments: self.arguments.clone(),
            has_flag: self.has_flag,
        }
    }
}

/// A word of a command line sets the debugging port.
pub open spec fn is_debug_word(w: Seq<char>) -> bool {
    w == REMOTE_DEBUG_FLAG@ || has_prefix(w, "--remote-debugging-port="@)
}

/// A command line carries the debugging-port flag.
pub open spec fn has_debug_flag(arguments: Seq<char>) -> bool {
    exists|i: int| 0 <= i < words(arguments).len() && is_debug_word(#[trigger] words(arguments)[i])
}

/// The command line with the flag added (trimmed).
pub open spec fn with_debug_flag(arguments: Seq<char>) -> Seq<char> {
    if has_debug_flag(arguments) {
        trim(arguments)
    } else {
        trim(trim(arguments) + " "@ + REMOTE_DEBUG_FLAG@)
    }
}

/// The words of a command line that are kept when the flag is removed.
pub open spec fn kept_words(ws: Seq<Seq<char>>) -> Seq<Seq<char>>
    decreases ws.len(),
{
    if ws.len() == 0 {
        Seq::empty()
    } else {
        kept_words(ws.drop_last()) + if ws.last() != REMOTE_DEBUG_FLAG@ && !has_prefix(
            ws.last(),
            "--remote-debugging-port"@,
        ) {
            seq![ws.last()]
        } else {
            Seq::<Seq<char>>::empty()
        }
    }
}

/// The command line with every debugging-port word removed.
pub open spec fn without_debug_flag(arguments: Seq<char>) -> Seq<char> {
    join(kept_words(words(arguments)), " "@)
}

fn words_of(arguments: &str) -> (r: Vec<Vec<char>>)
    ensures
        r@.map_values(|v: Vec<char>| v@) == words(arguments@),
{
    let cs = chars_of(arguments);
    let ws = split_words(cs.as_slice());
    assert(ws@.map_values(|v: Vec<char>| v@) =~= words(arguments@));
    ws
}

/// Whether a command line carries the debugging-port flag.
pub fn has_remote_debug_arg(arguments: &str) -> (r: bool)
    ensures
        r == has_debug_flag(arguments@),
{
    let ws = words_of(arguments);
    let ghost wv = words(arguments@);
    let flag = chars_of(REMOTE_DEBUG_FLAG);
    let prefix = chars_of("--remote-debugging-port=");
    let n = ws.len();
    for i in 0..n
        invariant
            n == ws@.len(),
            wv == words(arguments@),
            ws@.map_values(|v: Vec<char>| v@) == wv,
            flag@ == REMOTE_DEBUG_FLAG@,
            prefix@ == "--remote-debugging-port="@,
            forall|j: int| 0 <= j < i ==> !is_debug_word(#[trigger] wv[j]),
    {
        assert(wv[i as int] == ws@[i as int]@);
        let w = ws[i].as_slice();
        if crate::text::same_chars(w, flag.as_slice()) || starts_with(w, prefix.as_slice()) {
            assert(is_debug_word(wv[i as int]));
            return true;
        }
    }
    false
}

/// The command line with the flag added.
pub fn with_remote_debug_arg(arguments: &str) -> (r: String)
    ensures
        r@ == with_debug_flag(arguments@),
{
    let cs = chars_of(arguments);
    let t = trim_chars(cs.as_slice());
    if has_remote_debug_arg(arguments) {
        string_of(t.as_slice())
    } else {
        let mut v = t;
        v.push(' ');
        extend_chars(&mut v, chars_of(REMOTE_DEBUG_FLAG).as_slice());
        let r = trim_chars(v.as_slice());
        proof {
            assert(v@ =~= trim(arguments@) + " "@ + REMOTE_DEBUG_FLAG@) by {
                reveal_strlit(" ");
            }
        }
        string_of(r.as_slice())
    }
}

/// The command line with every debugging-port word removed.
pub fn strip_remote_debug_arg(arguments: &str) -> (r: String)
    ensures
        r@ == without_debug_flag(arguments@),
{
    let ws = words_of(arguments);
    let ghost wv = words(arguments@);
    let flag = chars_of(REMOTE_DEBUG_FLAG);
    let prefix = chars_of("--remote-debugging-port");
    let mut kept: Vec<Vec<char>> = Vec::new();
    let n = ws.len();
    for i in 0..n
        invariant
            n == ws@.len(),
            wv == words(arguments@),
            ws@.map_values(|v: Vec<char>| v@) == wv,
            flag@ == REMOTE_DEBUG_FLAG@,
            prefix@ == "--remote-debugging-port"@,
            kept@.map_values(|v: Vec<char>| v@) == kept_words(wv.take(i as int)),
    {
        assert(wv.take(i + 1).drop_last() == wv.take(i as int));
        assert(wv.take(i + 1).last() == ws@[i as int]@);
        let ghost before = kept@.map_values(|v: Vec<char>| v@);
        let w = ws[i].as_slice();
        if !crate::text::same_chars(w, flag.as_slice()) && !starts_with(w, prefix.as_slice()) {
            let c = slice_chars(w, 0, w.len());
            assert(c@ =~= ws@[i as int]@);
            kept.push(c);
            assert(kept@.map_values(|v: Vec<char>| v@) =~= before + seq![ws@[i as int]@]);
        } else {
            assert(kept@.map_values(|v: Vec<char>| v@) =~= before + Seq::<Seq<char>>::empty());
        }
    }
    assert(wv.take(n as int) == wv);
    let sep = chars_of(" ");
    let joined = join_chars(&kept, sep.as_slice());
    string_of(joined.as_slice())
}


// ---------------------------------------------------------------------------
// What adding and removing the flag keep
// ---------------------------------------------------------------------------

/// A word survives when the flag is removed.
pub open spec fn kept_word(w: Seq<char>) -> bool {
    w != REMOTE_DEBUG_FLAG@ && !has_prefix(w, "--remote-debugging-port"@)
}

proof fn lemma_flag_word()
    ensures
        is_word(REMOTE_DEBUG_FLAG@),
        is_debug_word(REMOTE_DEBUG_FLAG@),
        !kept_word(REMOTE_DEBUG_FLAG@),
{
    reveal_strlit("--remote-debugging-port=9229");
    assert(no_ws(REMOTE_DEBUG_FLAG@));
}

proof fn lemma_debug_word_not_kept(w: Seq<char>)
    requires
        is_debug_word(w),
    ensures
        !kept_word(w),
{
    reveal_strlit("--remote-debugging-port=");
    reveal_strlit("--remote-debugging-port");
    if w != REMOTE_DEBUG_FLAG@ {
        let p = "--remote-debugging-port="@;
        let q = "--remote-debugging-port"@;
        assert(w.take(p.len() as int) == p);
        assert(w.take(q.len() as int) =~= q) by {
            assert forall|i: int| 0 <= i < q.len() implies w.take(q.len() as int)[i] == q[i] by {
                assert(w.take(p.len() as int)[i] == p[i]);
            }
        }
    }
}

proof fn lemma_kept_shape(ws: Seq<Seq<char>>)
    requires
        forall|k: int| 0 <= k < ws.len() ==> is_word(#[trigger] ws[k]),
    ensures
        forall|k: int| 0 <= k < kept_words(ws).len() ==> is_word(#[trigger] kept_words(ws)[k]) && kept_word(
            kept_words(ws)[k],
        ),
    decreases ws.len(),
{
    if ws.len() > 0 {
        let d = ws.drop_last();
        assert forall|k: int| 0 <= k < d.len() implies is_word(#[trigger] d[k]) by {
            assert(d[k] == ws[k]);
        }
        lemma_kept_shape(d);
        assert(is_word(ws[ws.len() - 1]));
        let tail = if kept_word(ws.last()) { seq![ws.last()] } else { Seq::<Seq<char>>::empty() };
        assert(kept_words(ws) == kept_words(d) + tail);
        assert forall|k: int| 0 <= k < kept_words(ws).len() implies is_word(#[trigger] kept_words(ws)[k])
            && kept_word(kept_words(ws)[k]) by {
            if k < kept_words(d).len() {
                assert(kept_words(ws)[k] == kept_words(d)[k]);
            } else {
                assert(kept_words(ws)[k] == ws.last());
            }
        }
    }
}

proof fn lemma_kept_all(ws: Seq<Seq<char>>)
    requires
        forall|k: int| 0 <= k < ws.len() ==> kept_word(#[trigger] ws[k]),
    ensures
        kept_words(ws) == ws,
    decreases ws.len(),
{
    if ws.len() > 0 {
        let d = ws.drop_last();
        assert forall|k: int| 0 <= k < d.len() implies kept_word(#[trigger] d[k]) by {
            assert(d[k] == ws[k]);
        }
        lemma_kept_all(d);
        assert(kept_word(ws[ws.len() - 1]));
        assert(d + seq![ws.last()] =~= ws);
    }
}

/// The words of a command line after the flag is removed.
proof fn lemma_words_without(arguments: Seq<char>)
    ensures
        words(without_debug_flag(arguments)) == kept_words(words(arguments)),
        forall|k: int| 0 <= k < kept_words(words(arguments)).len() ==> kept_word(
            #[trigger] kept_words(words(arguments))[k],
        ),
{
    lemma_words_shape(arguments);
    lemma_kept_shape(words(arguments));
    lemma_words_join(kept_words(words(arguments)));
}

/// The words of a command line after the flag is added.
proof fn lemma_words_with(arguments: Seq<char>)
    ensures
        has_debug_flag(arguments) ==> words(with_debug_flag(arguments)) == words(arguments),
        !has_debug_flag(arguments) ==> words(with_debug_flag(arguments)) == words(arguments) + seq![
            REMOTE_DEBUG_FLAG@,
        ],
{
    lemma_words_trim(arguments);
    if !has_debug_flag(arguments) {
        lemma_flag_word();
        let t = trim(arguments);
        lemma_words_append_word(t, REMOTE_DEBUG_FLAG@);
        lemma_words_trim(t + " "@ + REMOTE_DEBUG_FLAG@);
    }
}

/// Adding the flag puts it on the command line.
pub proof fn law_enable_sets_flag(arguments: Seq<char>)
    ensures
        has_debug_flag(with_debug_flag(arguments)),
{
    lemma_words_with(arguments);
    if has_debug_flag(arguments) {
        let i = choose|i: int| 0 <= i < words(arguments).len() && is_debug_word(#[trigger] words(arguments)[i]);
        assert(is_debug_word(words(with_debug_flag(arguments))[i]));
    } else {
        lemma_flag_word();
        let n = words(arguments).len() as int;
        assert(words(with_debug_flag(arguments))[n] == REMOTE_DEBUG_FLAG@);
        assert(is_debug_word(words(with_debug_flag(arguments))[n]));
    }
}

/// Adding the flag a second time changes nothing.
pub proof fn law_enable_idempotent(arguments: Seq<char>)
    ensures
        with_debug_flag(with_debug_flag(arguments)) == with_debug_flag(arguments),
{
    law_enable_sets_flag(arguments);
    if has_debug_flag(arguments) {
        lemma_trim_idempotent(arguments);
    } else {
        lemma_trim_idempotent(trim(arguments) + " "@ + REMOTE_DEBUG_FLAG@);
    }
}

/// Removing the flag leaves a command line without it.
pub proof fn law_disable_clears_flag(arguments: Seq<char>)
    ensures
        !has_debug_flag(without_debug_flag(arguments)),
{
    lemma_words_without(arguments);
    let ws = words(without_debug_flag(arguments));
    assert forall|i: int| 0 <= i < ws.len() implies !is_debug_word(#[trigger] ws[i]) by {
        assert(kept_word(kept_words(words(arguments))[i]));
        if is_debug_word(ws[i]) {
            lemma_debug_word_not_kept(ws[i]);
        }
    }
}

/// Removing the flag a second time changes nothing.
pub proof fn law_disable_idempotent(arguments: Seq<char>)
    ensures
        without_debug_flag(without_debug_flag(arguments)) == without_debug_flag(arguments),
{
    lemma_words_without(arguments);
    lemma_kept_all(kept_words(words(arguments)));
}

/// Removing the flag after adding it gives what removing it alone gives.
pub proof fn law_disable_undoes_enable(arguments: Seq<char>)
    ensures
        without_debug_flag(with_debug_flag(arguments)) == without_debug_flag(arguments),
{
    lemma_words_with(arguments);
    if !has_debug_flag(arguments) {
        lemma_flag_word();
        let ws = words(arguments);
        assert((ws + seq![REMOTE_DEBUG_FLAG@]).drop_last() =~= ws);
        assert(kept_words(ws + seq![REMOTE_DEBUG_FLAG@]) =~= kept_words(ws) + Seq::<Seq<char>>::empty());
    }
}

// ---------------------------------------------------------------------------
// Windows shortcuts
// ---------------------------------------------------------------------------

/// A `.lnk` file as read: its path, target and arguments.
pub struct LinkEntry {
    pub path: String,
    pub target: String,
    pub arguments: String,
}

pub struct LinkView {
    pub path: Seq<char>,
    pub target: Seq<char>,
    pub arguments: Seq<char>,
}

impl View for LinkEntry {
    type V = LinkView;

    open spec fn view(&self) -> LinkView {
        LinkView { path: self.path@, target: self.target@, arguments: self.arguments@ }
    }
}

/// The text after the last `\` or `/`.
pub open spec fn file_name(s: Seq<char>) -> Seq<char>
    decreases s.len(),
{
    if s.len() == 0 {
        s
    } else if s.last() == '\\' || s.last() == '/' {
        Seq::empty()
    } else {
        file_name(s.drop_last()).push(s.last())
    }
}

/// A shortcut target is `ZCode.exe`, in any ASCII case.
pub open spec fn is_zcode_exe(target: Seq<char>) -> bool {
    eq_ignore_case(file_name(target), "zcode.exe"@)
}

/// Whether a shortcut target is `ZCode.exe`.
pub fn is_zcode_target(target: &str) -> (r: bool)
    ensures
        r == is_zcode_exe(target@),
{
    let s = chars_of(target);
    let n = s.len();
    let mut j = n;
    assert(s@.take(n as int) == s@);
    while j > 0 && s[j - 1] != '\\' && s[j - 1] != '/'
        invariant
            n == s@.len(),
            j <= n,
            file_name(s@) == file_name(s@.take(j as int)) + s@.subrange(j as int, n as int),
        decreases j,
    {
        assert(s@.take(j as int).drop_last() == s@.take(j - 1));
        assert(file_name(s@.take(j - 1)).push(s@[j - 1]) + s@.subrange(j as int, n as int)
            =~= file_name(s@.take(j - 1)) + s@.subrange(j - 1, n as int));
        j = j - 1;
    }
    assert(file_name(s@) =~= s@.subrange(j as int, n as int));
    let name = slice_chars(s.as_slice(), j, n);
    eq_ignore_ascii_case(name.as_slice(), chars_of("zcode.exe").as_slice())
}

/// The shortcuts that launch ZCode, in order.
pub open spec fn zcode_links(links: Seq<LinkView>) -> Seq<LinkView>
    decreases links.len(),
{
    if links.len() == 0 {
        Seq::empty()
    } else {
        zcode_links(links.drop_last()) + if is_zcode_exe(links.last().target) {
            seq![links.last()]
        } else {
            Seq::<LinkView>::empty()
        }
    }
}

pub open spec fn link_views(links: Seq<LinkEntry>) -> Seq<LinkView> {
    links.map_values(|l: LinkEntry| l@)
}

fn copy_link(l: &LinkEntry) -> (r: LinkEntry)
    ensures
        r@ == l@,
{
    LinkEntry { path: l.path.clone(), target: l.target.clone(), arguments: l.arguments.clone() }
}

/// The shortcuts among `links` that launch ZCode.
pub fn iter_zcode_shortcuts(links: &Vec<LinkEntry>) -> (r: Vec<LinkEntry>)
    ensures
        link_views(r@) == zcode_links(link_views(links@)),
{
    let ghost lv = link_views(links@);
    let mut out: Vec<LinkEntry> = Vec::new();
    let n = links.len();
    for i in 0..n
        invariant
            n == links@.len(),
            lv == link_views(links@),
            link_views(out@) == zcode_links(lv.take(i as int)),
    {
        assert(lv.take(i + 1).drop_last() == lv.take(i as int));
        assert(lv.take(i + 1).last() == links@[i as int]@);
        let ghost before = link_views(out@);
        if is_zcode_target(links[i].target.as_str()) {
            out.push(copy_link(&links[i]));
            assert(link_views(out@) =~= before + seq![links@[i as int]@]);
        } else {
            assert(link_views(out@) =~= before + Seq::<LinkView>::empty());
        }
    }
    assert(lv.take(n as int) == lv);
    out
}

/// The launch entry for a shortcut.
pub open spec fn shortcut_of(l: LinkView) -> ShortcutView {
    ShortcutView { path: l.path, target: l.target, arguments: l.arguments, has_flag: has_debug_flag(l.arguments) }
}

pub open spec fn shortcut_views(s: Seq<ShortcutInfo>) -> Seq<ShortcutView> {
    s.map_values(|x: ShortcutInfo| x@)
}

/// The entries a scan of `links` gives.
pub open spec fn scanned(links: Seq<LinkView>) -> Seq<ShortcutView> {
    zcode_links(links).map_values(|l: LinkView| shortcut_of(l))
}

/// The launch entries for the ZCode shortcuts among `links`.
pub fn scan_zcode_shortcuts(links: &Vec<LinkEntry>) -> (r: Vec<ShortcutInfo>)
    ensures
        shortcut_views(r@) == scanned(link_views(links@)),
{
    let found = iter_zcode_shortcuts(links);
    let mut out: Vec<ShortcutInfo> = Vec::new();
    let n = found.len();
    for i in 0..n
        invariant
            n == found@.len(),
            out@.len() == i,
            forall|k: int| 0 <= k < i ==> #[trigger] out@[k]@ == shortcut_of(found@[k]@),
    {
        let l = &found[i];
        let has_flag = has_remote_debug_arg(l.arguments.as_str());
        out.push(
            ShortcutInfo {
                has_flag,
                path: l.path.clone(),
                target: l.target.clone(),
                arguments: l.arguments.clone(),
            },
        );
    }
    assert(shortcut_views(out@) =~= scanned(link_views(links@)));
    out
}

/// A rewrite of the arguments of shortcut `index`.
pub struct ArgumentWrite {
    pub index: usize,
    pub arguments: String,
}

pub open spec fn write_views(ws: Seq<ArgumentWrite>) -> Seq<(int, Seq<char>)> {
    ws.map_values(|w: ArgumentWrite| (w.index as int, w.arguments@))
}

/// The rewrites that add the flag: one for each shortcut without it.
pub open spec fn enable_writes(ls: Seq<LinkView>) -> Seq<(int, Seq<char>)>
    decreases ls.len(),
{
    if ls.len() == 0 {
        Seq::empty()
    } else {
        enable_writes(ls.drop_last()) + if !has_debug_flag(ls.last().arguments) {
            seq![((ls.len() - 1) as int, with_debug_flag(ls.last().arguments))]
        } else {
            Seq::<(int, Seq<char>)>::empty()
        }
    }
}

/// The rewrites that remove the flag: one for each shortcut with it.
pub open spec fn disable_writes(ls: Seq<LinkView>) -> Seq<(int, Seq<char>)>
    decreases ls.len(),
{
    if ls.len() == 0 {
        Seq::empty()
    } else {
        disable_writes(ls.drop_last()) + if has_debug_flag(ls.last().arguments) {
            seq![((ls.len() - 1) as int, without_debug_flag(ls.last().arguments))]
        } else {
            Seq::<(int, Seq<char>)>::empty()
        }
    }
}

/// The number of shortcuts that already carry the flag.
pub open spec fn flagged_count(ls: Seq<LinkView>) -> nat
    decreases ls.len(),
{
    if ls.len() == 0 {
        0
    } else {
        flagged_count(ls.drop_last()) + if has_debug_flag(ls.last().arguments) {
            1nat
        } else {
            0nat
        }
    }
}

/// Every shortcut is either rewritten to get the flag or already has it.
pub proof fn law_enable_plan_counts(ls: Seq<LinkView>)
    ensures
        enable_writes(ls).len() + flagged_count(ls) == ls.len(),
    decreases ls.len(),
{
    if ls.len() > 0 {
        law_enable_plan_counts(ls.drop_last());
    }
}

/// Every rewrite planned by enabling carries the flag, and every rewrite
/// planned by disabling carries none.
pub proof fn law_rewrites_set_flag(ls: Seq<LinkView>)
    ensures
        forall|k: int| 0 <= k < enable_writes(ls).len() ==> has_debug_flag(#[trigger] enable_writes(ls)[k].1),
        forall|k: int| 0 <= k < disable_writes(ls).len() ==> !has_debug_flag(#[trigger] disable_writes(ls)[k].1),
    decreases ls.len(),
{
    if ls.len() > 0 {
        let d = ls.drop_last();
        law_rewrites_set_flag(d);
        law_enable_sets_flag(ls.last().arguments);
        law_disable_clears_flag(ls.last().arguments);
        let e = enable_writes(ls);
        let ed = enable_writes(d);
        assert forall|k: int| 0 <= k < e.len() implies has_debug_flag(#[trigger] e[k].1) by {
            if k < ed.len() {
                assert(e[k] == ed[k]);
            }
        }
        let x = disable_writes(ls);
        let xd = disable_writes(d);
        assert forall|k: int| 0 <= k < x.len() implies !has_debug_flag(#[trigger] x[k].1) by {
            if k < xd.len() {
                assert(x[k] == xd[k]);
            }
        }
    }
}

/// A command line carries the flag itself, `--remote-debugging-port=9229`.
pub open spec fn has_exact_flag(arguments: Seq<char>) -> bool {
    words(arguments).contains(REMOTE_DEBUG_FLAG@)
}

/// Some word of a command line starts with `--remote-debugging-port`.
pub open spec fn has_port_word(arguments: Seq<char>) -> bool {
    exists|i: int| 0 <= i < words(arguments).len() && !kept_word(#[trigger] words(arguments)[i])
}

/// A command line that sets another port: its port words replaced by the flag.
pub open spec fn repointed(arguments: Seq<char>) -> Seq<char> {
    trim(without_debug_flag(arguments) + " "@ + REMOTE_DEBUG_FLAG@)
}

/// The rewrites that move a shortcut setting another port to port 9229.
pub open spec fn enable_repoints(ls: Seq<LinkView>) -> Seq<(int, Seq<char>)>
    decreases ls.len(),
{
    if ls.len() == 0 {
        Seq::empty()
    } else {
        enable_repoints(ls.drop_last()) + if has_debug_flag(ls.last().arguments) && !has_exact_flag(
            ls.last().arguments,
        ) {
            seq![((ls.len() - 1) as int, repointed(ls.last().arguments))]
        } else {
            Seq::<(int, Seq<char>)>::empty()
        }
    }
}

/// The rewrites that clean a shortcut holding only port words without a
/// value (`--remote-debugging-port`, `--remote-debugging-portx`, ...).
pub open spec fn disable_cleanups(ls: Seq<LinkView>) -> Seq<(int, Seq<char>)>
    decreases ls.len(),
{
    if ls.len() == 0 {
        Seq::empty()
    } else {
        disable_cleanups(ls.drop_last()) + if !has_debug_flag(ls.last().arguments) && has_port_word(
            ls.last().arguments,
        ) {
            seq![((ls.len() - 1) as int, without_debug_flag(ls.last().arguments))]
        } else {
            Seq::<(int, Seq<char>)>::empty()
        }
    }
}

proof fn lemma_flag_after_enable(arguments: Seq<char>)
    ensures
        !has_debug_flag(arguments) ==> has_exact_flag(with_debug_flag(arguments)),
        has_exact_flag(repointed(arguments)),
{
    lemma_words_with(arguments);
    lemma_flag_word();
    if !has_debug_flag(arguments) {
        let n = words(arguments).len() as int;
        assert(words(with_debug_flag(arguments))[n] == REMOTE_DEBUG_FLAG@);
    }
    let w = without_debug_flag(arguments);
    lemma_words_append_word(w, REMOTE_DEBUG_FLAG@);
    lemma_words_trim(w + " "@ + REMOTE_DEBUG_FLAG@);
    assert(words(repointed(arguments))[words(w).len() as int] == REMOTE_DEBUG_FLAG@);
}

proof fn lemma_no_port_word_after_disable(arguments: Seq<char>)
    ensures
        !has_port_word(without_debug_flag(arguments)),
{
    lemma_words_without(arguments);
}

/// A command line without any word starting with `--remote-debugging-port`
/// sets no debugging port, so a shortcut cleaned by disabling is not
/// rewritten, nor counted, by disabling again.
pub proof fn law_no_port_word_no_flag(arguments: Seq<char>)
    ensures
        !has_port_word(arguments) ==> !has_debug_flag(arguments),
{
    if has_debug_flag(arguments) {
        let i = choose|i: int| 0 <= i < words(arguments).len() && is_debug_word(#[trigger] words(arguments)[i]);
        lemma_debug_word_not_kept(words(arguments)[i]);
    }
}

/// Enabling leaves every ZCode shortcut with `--remote-debugging-port=9229`:
/// each one either has it already or is rewritten (to add it, or to move
/// another port to it), and every rewrite carries it.
pub proof fn law_enable_pins_flag(ls: Seq<LinkView>)
    ensures
        forall|k: int| 0 <= k < enable_writes(ls).len() ==> has_exact_flag(#[trigger] enable_writes(ls)[k].1),
        forall|k: int| 0 <= k < enable_repoints(ls).len() ==> has_exact_flag(#[trigger] enable_repoints(ls)[k].1),
        forall|i: int|
            0 <= i < ls.len() ==> has_exact_flag(#[trigger] ls[i].arguments) || (exists|k: int|
                0 <= k < enable_writes(ls).len() && enable_writes(ls)[k].0 == i) || (exists|k: int|
                0 <= k < enable_repoints(ls).len() && enable_repoints(ls)[k].0 == i),
    decreases ls.len(),
{
    if ls.len() > 0 {
        let d = ls.drop_last();
        law_enable_pins_flag(d);
        let a = ls.last().arguments;
        lemma_flag_after_enable(a);
        let e = enable_writes(ls);
        let ed = enable_writes(d);
        let r = enable_repoints(ls);
        let rd = enable_repoints(d);
        assert forall|k: int| 0 <= k < e.len() implies has_exact_flag(#[trigger] e[k].1) by {
            if k < ed.len() {
                assert(e[k] == ed[k]);
            }
        }
        assert forall|k: int| 0 <= k < r.len() implies has_exact_flag(#[trigger] r[k].1) by {
            if k < rd.len() {
                assert(r[k] == rd[k]);
            }
        }
        assert forall|i: int| 0 <= i < ls.len() implies has_exact_flag(#[trigger] ls[i].arguments) || (exists|k: int|
            0 <= k < e.len() && e[k].0 == i) || (exists|k: int| 0 <= k < r.len() && r[k].0 == i) by {
            let last = ls.len() - 1;
            if i < last {
                assert(d[i] == ls[i]);
                if !has_exact_flag(d[i].arguments) {
                    if exists|k: int| 0 <= k < ed.len() && ed[k].0 == i {
                        let k = choose|k: int| 0 <= k < ed.len() && ed[k].0 == i;
                        assert(e[k] == ed[k]);
                    } else {
                        let k = choose|k: int| 0 <= k < rd.len() && rd[k].0 == i;
                        assert(r[k] == rd[k]);
                    }
                }
            } else if !has_exact_flag(a) {
                if !has_debug_flag(a) {
                    assert(e[ed.len() as int].0 == i);
                } else {
                    assert(r[rd.len() as int].0 == i);
                }
            }
        }
    }
}

/// Disabling leaves no ZCode shortcut with a word starting with
/// `--remote-debugging-port`: each one either has none or is rewritten, and
/// no rewrite has one.
pub proof fn law_disable_clears_all(ls: Seq<LinkView>)
    ensures
        forall|k: int| 0 <= k < disable_writes(ls).len() ==> !has_port_word(#[trigger] disable_writes(ls)[k].1),
        forall|k: int| 0 <= k < disable_cleanups(ls).len() ==> !has_port_word(#[trigger] disable_cleanups(ls)[k].1),
        forall|i: int|
            0 <= i < ls.len() ==> !has_port_word(#[trigger] ls[i].arguments) || (exists|k: int|
                0 <= k < disable_writes(ls).len() && disable_writes(ls)[k].0 == i) || (exists|k: int|
                0 <= k < disable_cleanups(ls).len() && disable_cleanups(ls)[k].0 == i),
    decreases ls.len(),
{
    if ls.len() > 0 {
        let d = ls.drop_last();
        law_disable_clears_all(d);
        let a = ls.last().arguments;
        lemma_no_port_word_after_disable(a);
        let e = disable_writes(ls);
        let ed = disable_writes(d);
        let r = disable_cleanups(ls);
        let rd = disable_cleanups(d);
        assert forall|k: int| 0 <= k < e.len() implies !has_port_word(#[trigger] e[k].1) by {
            if k < ed.len() {
                assert(e[k] == ed[k]);
            }
        }
        assert forall|k: int| 0 <= k < r.len() implies !has_port_word(#[trigger] r[k].1) by {
            if k < rd.len() {
                assert(r[k] == rd[k]);
            }
        }
        assert forall|i: int| 0 <= i < ls.len() implies !has_port_word(#[trigger] ls[i].arguments) || (exists|k: int|
            0 <= k < e.len() && e[k].0 == i) || (exists|k: int| 0 <= k < r.len() && r[k].0 == i) by {
            let last = ls.len() - 1;
            if i < last {
                assert(d[i] == ls[i]);
                if has_port_word(d[i].arguments) {
                    if exists|k: int| 0 <= k < ed.len() && ed[k].0 == i {
                        let k = choose|k: int| 0 <= k < ed.len() && ed[k].0 == i;
                        assert(e[k] == ed[k]);
                    } else {
                        let k = choose|k: int| 0 <= k < rd.len() && rd[k].0 == i;
                        assert(r[k] == rd[k]);
                    }
                }
            } else if has_port_word(a) {
                if has_debug_flag(a) {
                    assert(e[ed.len() as int].0 == i);
                } else {
                    assert(r[rd.len() as int].0 == i);
                }
            }
        }
    }
}

/// The shortcuts after a list of rewrites is saved: each rewritten one gets
/// the arguments of its last rewrite.
pub open spec fn applied(ls: Seq<LinkView>, ws: Seq<(int, Seq<char>)>) -> Seq<LinkView>
    decreases ws.len(),
{
    if ws.len() == 0 {
        ls
    } else {
        let a = applied(ls, ws.drop_last());
        let w = ws.last();
        if 0 <= w.0 < a.len() {
            a.update(w.0, LinkView { arguments: w.1, ..a[w.0] })
        } else {
            a
        }
    }
}

/// The shortcuts after every rewrite of a disable plan is saved.
pub open spec fn after_disable(ls: Seq<LinkView>) -> Seq<LinkView> {
    applied(applied(ls, disable_writes(ls)), disable_cleanups(ls))
}

proof fn lemma_applied(ls: Seq<LinkView>, ws: Seq<(int, Seq<char>)>)
    ensures
        applied(ls, ws).len() == ls.len(),
        forall|i: int|
            0 <= i < ls.len() ==> if exists|k: int| 0 <= k < ws.len() && ws[k].0 == i {
                exists|k: int| 0 <= k < ws.len() && ws[k].0 == i && (#[trigger] applied(ls, ws)[i]).arguments == ws[k].1
            } else {
                (#[trigger] applied(ls, ws)[i]).arguments == ls[i].arguments
            },
    decreases ws.len(),
{
    if ws.len() > 0 {
        let d = ws.drop_last();
        lemma_applied(ls, d);
        let a = applied(ls, d);
        let w = ws.last();
        let r = applied(ls, ws);
        assert forall|i: int| 0 <= i < ls.len() implies if exists|k: int| 0 <= k < ws.len() && ws[k].0 == i {
            exists|k: int| 0 <= k < ws.len() && ws[k].0 == i && (#[trigger] r[i]).arguments == ws[k].1
        } else {
            (#[trigger] r[i]).arguments == ls[i].arguments
        } by {
            if w.0 == i {
                assert(ws[ws.len() - 1].0 == i && r[i].arguments == ws[ws.len() - 1].1);
            } else {
                assert(r[i] == a[i]);
                if exists|k: int| 0 <= k < d.len() && d[k].0 == i {
                    let k = choose|k: int| 0 <= k < d.len() && d[k].0 == i && (#[trigger] a[i]).arguments == d[k].1;
                    assert(ws[k] == d[k]);
                } else {
                    assert forall|k: int| 0 <= k < ws.len() implies ws[k].0 != i by {
                        if k < d.len() {
                            assert(ws[k] == d[k]);
                        }
                    }
                }
            }
        }
    }
}

proof fn lemma_clean_plans_empty(ls: Seq<LinkView>)
    requires
        forall|i: int| 0 <= i < ls.len() ==> !has_port_word(#[trigger] ls[i].arguments),
    ensures
        disable_writes(ls).len() == 0,
        disable_cleanups(ls).len() == 0,
        flagged_count(ls) == 0,
    decreases ls.len(),
{
    if ls.len() > 0 {
        let d = ls.drop_last();
        assert forall|i: int| 0 <= i < d.len() implies !has_port_word(#[trigger] d[i].arguments) by {
            assert(d[i] == ls[i]);
        }
        lemma_clean_plans_empty(d);
        assert(!has_port_word(ls[ls.len() - 1].arguments));
        law_no_port_word_no_flag(ls.last().arguments);
    }
}

proof fn lemma_disable_count(ls: Seq<LinkView>)
    ensures
        disable_writes(ls).len() == flagged_count(ls),
    decreases ls.len(),
{
    if ls.len() > 0 {
        lemma_disable_count(ls.drop_last());
    }
}

/// Disabling restores as many shortcuts as carried the flag; once all its
/// rewrites are saved no shortcut has a word starting with
/// `--remote-debugging-port`, so disabling again plans nothing and restores
/// none.
pub proof fn law_disable_twice(ls: Seq<LinkView>)
    ensures
        disable_writes(ls).len() == flagged_count(ls),
        after_disable(ls).len() == ls.len(),
        forall|i: int| 0 <= i < ls.len() ==> !has_port_word(#[trigger] after_disable(ls)[i].arguments),
        disable_writes(after_disable(ls)).len() == 0,
        disable_cleanups(after_disable(ls)).len() == 0,
        flagged_count(after_disable(ls)) == 0,
{
    lemma_disable_count(ls);
    law_disable_clears_all(ls);
    let w = disable_writes(ls);
    let c = disable_cleanups(ls);
    let mid = applied(ls, w);
    let after = after_disable(ls);
    lemma_applied(ls, w);
    lemma_applied(mid, c);
    assert forall|i: int| 0 <= i < ls.len() implies !has_port_word(#[trigger] after[i].arguments) by {
        assert(after[i] == applied(mid, c)[i]);
        if exists|k: int| 0 <= k < c.len() && c[k].0 == i {
            let k = choose|k: int| 0 <= k < c.len() && c[k].0 == i && (#[trigger] applied(mid, c)[i]).arguments == c[k].1;
            assert(!has_port_word(c[k].1));
        } else {
            assert(after[i].arguments == mid[i].arguments);
            if exists|k: int| 0 <= k < w.len() && w[k].0 == i {
                let k = choose|k: int| 0 <= k < w.len() && w[k].0 == i && (#[trigger] mid[i]).arguments == w[k].1;
                assert(!has_port_word(w[k].1));
            } else {
                assert(mid[i].arguments == ls[i].arguments);
                assert(!has_port_word(ls[i].arguments) || (exists|k: int| 0 <= k < w.len() && w[k].0 == i) || (exists|k: int|
                    0 <= k < c.len() && c[k].0 == i));
            }
        }
    }
    lemma_clean_plans_empty(after);
}

fn has_exact_flag_arg(arguments: &str) -> (r: bool)
    ensures
        r == has_exact_flag(arguments@),
{
    let ws = words_of(arguments);
    let ghost wv = words(arguments@);
    let flag = chars_of(REMOTE_DEBUG_FLAG);
    let n = ws.len();
    for i in 0..n
        invariant
            n == ws@.len(),
            wv == words(arguments@),
            ws@.map_values(|v: Vec<char>| v@) == wv,
            flag@ == REMOTE_DEBUG_FLAG@,
            forall|j: int| 0 <= j < i ==> wv[j] != REMOTE_DEBUG_FLAG@,
    {
        assert(wv[i as int] == ws@[i as int]@);
        if crate::text::same_chars(ws[i].as_slice(), flag.as_slice()) {
            return true;
        }
    }
    false
}

fn has_port_word_arg(arguments: &str) -> (r: bool)
    ensures
        r == has_port_word(arguments@),
{
    let ws = words_of(arguments);
    let ghost wv = words(arguments@);
    let flag = chars_of(REMOTE_DEBUG_FLAG);
    let prefix = chars_of("--remote-debugging-port");
    let n = ws.len();
    for i in 0..n
        invariant
            n == ws@.len(),
            wv == words(arguments@),
            ws@.map_values(|v: Vec<char>| v@) == wv,
            flag@ == REMOTE_DEBUG_FLAG@,
            prefix@ == "--remote-debugging-port"@,
            forall|j: int| 0 <= j < i ==> kept_word(#[trigger] wv[j]),
    {
        assert(wv[i as int] == ws@[i as int]@);
        let w = ws[i].as_slice();
        if crate::text::same_chars(w, flag.as_slice()) || starts_with(w, prefix.as_slice()) {
            assert(!kept_word(wv[i as int]));
            return true;
        }
    }
    false
}

/// The argument line with its port words replaced by the flag.
fn repoint_arg(arguments: &str) -> (r: String)
    ensures
        r@ == repointed(arguments@),
{
    let w = strip_remote_debug_arg(arguments);
    let mut v = chars_of(w.as_str());
    v.push(' ');
    extend_chars(&mut v, chars_of(REMOTE_DEBUG_FLAG).as_slice());
    proof {
        assert(v@ =~= w@ + " "@ + REMOTE_DEBUG_FLAG@) by {
            reveal_strlit(" ");
        }
    }
    let t = trim_chars(v.as_slice());
    string_of(t.as_slice())
}

/// What enabling the flag does to a list of ZCode shortcuts.
pub struct EnablePlan {
    /// Rewrites that add the flag to shortcuts without one; these are the
    /// shortcuts counted as changed.
    pub writes: Vec<ArgumentWrite>,
    /// Rewrites that move shortcuts setting another port to port 9229; these
    /// shortcuts are counted as already on.
    pub repoints: Vec<ArgumentWrite>,
    pub already: usize,
    pub total: usize,
}

/// The plan for putting `--remote-debugging-port=9229` on every ZCode
/// shortcut: the rewrites for those without a debugging port, the rewrites
/// for those with another port, how many already had a port, and how many
/// there are.
pub fn enable_remote_debug(shortcuts: &Vec<LinkEntry>) -> (r: EnablePlan)
    ensures
        write_views(r.writes@) == enable_writes(link_views(shortcuts@)),
        write_views(r.repoints@) == enable_repoints(link_views(shortcuts@)),
        r.already == flagged_count(link_views(shortcuts@)),
        r.total == shortcuts@.len(),
{
    let ghost lv = link_views(shortcuts@);
    let mut writes: Vec<ArgumentWrite> = Vec::new();
    let mut repoints: Vec<ArgumentWrite> = Vec::new();
    let mut already: usize = 0;
    let n = shortcuts.len();
    for i in 0..n
        invariant
            n == shortcuts@.len(),
            lv == link_views(shortcuts@),
            write_views(writes@) == enable_writes(lv.take(i as int)),
            write_views(repoints@) == enable_repoints(lv.take(i as int)),
            already == flagged_count(lv.take(i as int)),
            already <= i,
    {
        assert(lv.take(i + 1).drop_last() == lv.take(i as int));
        assert(lv.take(i + 1).last() == shortcuts@[i as int]@);
        let ghost before = write_views(writes@);
        let ghost before_r = write_views(repoints@);
        let args = shortcuts[i].arguments.as_str();
        if has_remote_debug_arg(args) {
            already = already + 1;
            assert(write_views(writes@) =~= before + Seq::<(int, Seq<char>)>::empty());
            if !has_exact_flag_arg(args) {
                let a = repoint_arg(args);
                repoints.push(ArgumentWrite { index: i, arguments: a });
                assert(write_views(repoints@) =~= before_r + seq![(i as int, repointed(args@))]);
            } else {
                assert(write_views(repoints@) =~= before_r + Seq::<(int, Seq<char>)>::empty());
            }
        } else {
            let a = with_remote_debug_arg(args);
            writes.push(ArgumentWrite { index: i, arguments: a });
            assert(write_views(writes@) =~= before + seq![(i as int, with_debug_flag(args@))]);
            assert(write_views(repoints@) =~= before_r + Seq::<(int, Seq<char>)>::empty());
        }
    }
    assert(lv.take(n as int) == lv);
    EnablePlan { writes, repoints, already, total: n }
}

/// What disabling the flag does to a list of ZCode shortcuts.
pub struct DisablePlan {
    /// Rewrites that remove the flag from shortcuts with a debugging port;
    /// these are the shortcuts counted as restored.
    pub writes: Vec<ArgumentWrite>,
    /// Rewrites that remove the remaining port words without a value.
    pub cleanups: Vec<ArgumentWrite>,
}

/// The plan for removing every `--remote-debugging-port` word from the ZCode
/// shortcuts: the rewrites of those that set a debugging port, and of those
/// that only hold port words without a value.
pub fn disable_remote_debug(shortcuts: &Vec<LinkEntry>) -> (r: DisablePlan)
    ensures
        write_views(r.writes@) == disable_writes(link_views(shortcuts@)),
        write_views(r.cleanups@) == disable_cleanups(link_views(shortcuts@)),
{
    let ghost lv = link_views(shortcuts@);
    let mut writes: Vec<ArgumentWrite> = Vec::new();
    let mut cleanups: Vec<ArgumentWrite> = Vec::new();
    let n = shortcuts.len();
    for i in 0..n
        invariant
            n == shortcuts@.len(),
            lv == link_views(shortcuts@),
            write_views(writes@) == disable_writes(lv.take(i as int)),
            write_views(cleanups@) == disable_cleanups(lv.take(i as int)),
    {
        assert(lv.take(i + 1).drop_last() == lv.take(i as int));
        assert(lv.take(i + 1).last() == shortcuts@[i as int]@);
        let ghost before = write_views(writes@);
        let ghost before_c = write_views(cleanups@);
        let args = shortcuts[i].arguments.as_str();
        if has_remote_debug_arg(args) {
            let a = strip_remote_debug_arg(args);
            writes.push(ArgumentWrite { index: i, arguments: a });
            assert(write_views(writes@) =~= before + seq![(i as int, without_debug_flag(args@))]);
            assert(write_views(cleanups@) =~= before_c + Seq::<(int, Seq<char>)>::empty());
        } else {
            assert(write_views(writes@) =~= before + Seq::<(int, Seq<char>)>::empty());
            if has_port_word_arg(args) {
                let a = strip_remote_debug_arg(args);
                cleanups.push(ArgumentWrite { index: i, arguments: a });
                assert(write_views(cleanups@) =~= before_c + seq![(i as int, without_debug_flag(args@))]);
            } else {
                assert(write_views(cleanups@) =~= before_c + Seq::<(int, Seq<char>)>::empty());
            }
        }
    }
    assert(lv.take(n as int) == lv);
    DisablePlan { writes, cleanups }
}

/// The number of `true`s.
pub open spec fn count_true(s: Seq<bool>) -> nat
    decreases s.len(),
{
    if s.len() == 0 {
        0
    } else {
        count_true(s.drop_last()) + if s.last() {
            1nat
        } else {
            0nat
        }
    }
}

/// How many rewrites were saved, given whether each one was.
pub fn saved_count(results: &Vec<bool>) -> (r: usize)
    ensures
        r == count_true(results@),
{
    let mut c: usize = 0;
    let n = results.len();
    for i in 0..n
        invariant
            n == results@.len(),
            c == count_true(results@.take(i as int)),
            c <= i,
    {
        assert(results@.take(i + 1).drop_last() == results@.take(i as int));
        if results[i] {
            c = c + 1;
        }
    }
    assert(results@.take(n as int) == results@);
    c
}

/// The entry to restart ZCode from: the first one with the flag, or else
/// the first one.
pub open spec fn preferred_of(s: Seq<ShortcutView>) -> Option<ShortcutView> {
    if exists|i: int| 0 <= i < s.len() && s[i].has_flag {
        Some(s[choose|i: int| 0 <= i < s.len() && s[i].has_flag && forall|j: int| 0 <= j < i ==> !s[j].has_flag])
    } else if s.len() > 0 {
        Some(s[0])
    } else {
        None
    }
}

pub open spec fn option_view(o: Option<ShortcutInfo>) -> Option<ShortcutView> {
    match o {
        Some(x) => Some(x@),
        None => None,
    }
}

/// An entry with its flag also taken from its arguments.
pub open spec fn flag_refreshed(s: ShortcutView) -> ShortcutView {
    ShortcutView { has_flag: s.has_flag || has_debug_flag(s.arguments), ..s }
}

/// The entry chosen after a scan: none when the scan found no shortcut, else
/// the first shortcut with the flag, else the first one (without the flag);
/// its flag is the one its arguments carry, so refreshing it changes nothing.
pub proof fn law_preferred_from_scan(links: Seq<LinkView>)
    ensures
        preferred_of(scanned(links)) is None <==> scanned(links).len() == 0,
        (exists|i: int| 0 <= i < scanned(links).len() && scanned(links)[i].has_flag) ==> (exists|i: int|
            0 <= i < scanned(links).len() && preferred_of(scanned(links)) == Some(scanned(links)[i])
                && scanned(links)[i].has_flag && forall|j: int| 0 <= j < i ==> !#[trigger] scanned(links)[j].has_flag),
        !(exists|i: int| 0 <= i < scanned(links).len() && scanned(links)[i].has_flag) && scanned(links).len() > 0
            ==> preferred_of(scanned(links)) == Some(scanned(links)[0]) && !scanned(links)[0].has_flag,
        preferred_of(scanned(links)) matches Some(s) ==> s.has_flag == has_debug_flag(s.arguments)
            && flag_refreshed(s) == s,
{
    let v = scanned(links);
    let z = zcode_links(links);
    assert forall|i: int| 0 <= i < v.len() implies (#[trigger] v[i]).has_flag == has_debug_flag(v[i].arguments) by {
        assert(v[i] == shortcut_of(z[i]));
    }
    if exists|i: int| 0 <= i < v.len() && v[i].has_flag {
        let c = choose|i: int| 0 <= i < v.len() && v[i].has_flag && forall|j: int| 0 <= j < i ==> !v[j].has_flag;
        assert(exists|i: int| 0 <= i < v.len() && v[i].has_flag && forall|j: int| 0 <= j < i ==> !v[j].has_flag) by {
            let i0 = choose|i: int| 0 <= i < v.len() && v[i].has_flag;
            lemma_first_flagged(v, i0);
        }
        assert(preferred_of(v) == Some(v[c]));
    }
    if let Some(s) = preferred_of(v) {
        assert(exists|i: int| 0 <= i < v.len() && v[i] == s) by {
            if exists|i: int| 0 <= i < v.len() && v[i].has_flag {
                let c = choose|i: int| 0 <= i < v.len() && v[i].has_flag && forall|j: int| 0 <= j < i ==> !v[j].has_flag;
                assert(v[c] == s);
            } else {
                assert(v[0] == s);
            }
        }
    }
}

proof fn lemma_first_flagged(v: Seq<ShortcutView>, i: int)
    requires
        0 <= i < v.len(),
        v[i].has_flag,
    ensures
        exists|k: int| 0 <= k < v.len() && v[k].has_flag && forall|j: int| 0 <= j < k ==> !v[j].has_flag,
    decreases i,
{
    if exists|j: int| 0 <= j < i && v[j].has_flag {
        let j = choose|j: int| 0 <= j < i && v[j].has_flag;
        lemma_first_flagged(v, j);
    } else {
        assert(0 <= i < v.len() && v[i].has_flag && forall|j: int| 0 <= j < i ==> !v[j].has_flag);
    }
}

/// The entry to restart ZCode from among the scanned shortcuts.
pub fn preferred_shortcut(shortcuts: &Vec<ShortcutInfo>) -> (r: Option<ShortcutInfo>)
    ensures
        option_view(r) == preferred_of(shortcut_views(shortcuts@)),
{
    let ghost sv = shortcut_views(shortcuts@);
    let n = shortcuts.len();
    for i in 0..n
        invariant
            n == shortcuts@.len(),
            sv == shortcut_views(shortcuts@),
            forall|j: int| 0 <= j < i ==> !sv[j].has_flag,
    {
        if shortcuts[i].has_flag {
            proof {
                assert(sv[i as int].has_flag);
                let c = choose|k: int| 0 <= k < sv.len() && sv[k].has_flag && forall|j: int| 0 <= j < k ==> !sv[j].has_flag;
                if c < i {
                    assert(!sv[c].has_flag);
                } else if c > i {
                    assert(!sv[i as int].has_flag);
                }
            }
            return Some(shortcuts[i].duplicate());
        }
    }
    if n > 0 {
        Some(shortcuts[0].duplicate())
    } else {
        None
    }
}

/// The preferred entry with its flag taken from its arguments as well.
pub fn find_preferred_shortcut(found: Option<ShortcutInfo>) -> (r: Option<ShortcutInfo>)
    ensures
        match (found, r) {
            (None, None) => true,
            (Some(f), Some(x)) => x@ == flag_refreshed(f@),
            _ => false,
        },
{
    match found {
        Some(mut sc) => {
            let flag = has_remote_debug_arg(sc.arguments.as_str());
            sc.has_flag = sc.has_flag || flag;
            Some(sc)
        },
        None => None,
    }
}


// ---------------------------------------------------------------------------
// Wide strings from the shell-link API
// ---------------------------------------------------------------------------

/// What `String::from_utf16_lossy` gives for `units`.
pub uninterp spec fn lossy_utf16(units: Seq<u16>) -> Seq<char>;

/// `String::from_utf16_lossy`: the result is named `lossy_utf16`.
#[verifier::external_body]
fn decode_utf16_lossy(units: &[u16]) -> (r: String)
    ensures
        r@ == lossy_utf16(units@),
{
    String::from_utf16_lossy(units)
}

/// The units before the first NUL, or all of them.
pub open spec fn before_nul(buf: Seq<u16>) -> Seq<u16> {
    if exists|i: int| 0 <= i < buf.len() && buf[i] == 0 {
        buf.take(choose|i: int| 0 <= i < buf.len() && buf[i] == 0 && forall|j: int| 0 <= j < i ==> buf[j] != 0)
    } else {
        buf
    }
}

fn nul_position(buf: &[u16]) -> (r: usize)
    ensures
        r <= buf@.len(),
        before_nul(buf@) == buf@.take(r as int),
{
    let n = buf.len();
    for i in 0..n
        invariant
            n == buf@.len(),
            forall|j: int| 0 <= j < i ==> buf@[j] != 0,
    {
        if buf[i] == 0 {
            proof {
                let c = choose|k: int| 0 <= k < buf@.len() && buf@[k] == 0 && forall|j: int| 0 <= j < k ==> buf@[j] != 0;
                assert(buf@[i as int] == 0);
                if c < i {
                    assert(buf@[c] != 0);
                } else if c > i {
                    assert(buf@[i as int] != 0);
                }
            }
            return i;
        }
    }
    assert(buf@.take(n as int) == buf@);
    n
}

/// The text of a NUL-terminated UTF-16 buffer.
pub fn from_wide(buf: &[u16]) -> (r: String)
    ensures
        r@ == lossy_utf16(before_nul(buf@)),
{
    let len = nul_position(buf);
    let n = buf.len();
    let mut units: Vec<u16> = Vec::new();
    for k in 0..len
        invariant
            len <= n,
            n == buf@.len(),
            units@ == buf@.take(k as int),
    {
        units.push(buf[k]);
        assert(buf@.take(k + 1) == buf@.take(k as int).push(buf@[k as int]));
    }
    decode_utf16_lossy(units.as_slice())
}

// ---------------------------------------------------------------------------
// macOS: the ZCode.app bundle and the switcher's launcher state
// ---------------------------------------------------------------------------

/// The switcher's record of whether launching with the flag is on, and where
/// ZCode.app was found.
pub struct LauncherState {
    pub enhanced: bool,
    pub app_path: Option<String>,
}

pub struct LauncherStateView {
    pub enhanced: bool,
    pub app_path: Option<Seq<char>>,
}

impl View for LauncherState {
    type V = LauncherStateView;

    open spec fn view(&self) -> LauncherStateView {
        LauncherStateView {
            enhanced: self.enhanced,
            app_path: match &self.app_path {
                Some(p) => Some(p@),
                None => None,
            },
        }
    }
}

/// The entry for the app bundle at `app`.
pub open spec fn bundle_entry(app: Seq<char>, enhanced: bool) -> ShortcutView {
    ShortcutView {
        path: app,
        target: app,
        arguments: if enhanced { REMOTE_DEBUG_FLAG@ } else { Seq::empty() },
        has_flag: enhanced,
    }
}

pub open spec fn text_opt(o: Option<&str>) -> Option<Seq<char>> {
    match o {
        Some(s) => Some(s@),
        None => None,
    }
}

/// The entry for the app bundle at `app`.
pub fn shortcut_info(app: &str, enhanced: bool) -> (r: ShortcutInfo)
    ensures
        r@ == bundle_entry(app@, enhanced),
{
    let arguments = if enhanced {
        owned(REMOTE_DEBUG_FLAG)
    } else {
        let e = String::new();
        e
    };
    ShortcutInfo { arguments, has_flag: enhanced, path: owned(app), target: owned(app) }
}

/// The entries on macOS: the bundle, if it was found.
pub fn scan_impl(app: Option<&str>, enhanced: bool) -> (r: Vec<ShortcutInfo>)
    ensures
        shortcut_views(r@) == match text_opt(app) {
            Some(a) => seq![bundle_entry(a, enhanced)],
            None => Seq::<ShortcutView>::empty(),
        },
{
    match app {
        Some(a) => {
            let r = vec![shortcut_info(a, enhanced)];
            assert(shortcut_views(r@) =~= seq![bundle_entry(a@, enhanced)]);
            r
        },
        None => {
            let r: Vec<ShortcutInfo> = Vec::new();
            assert(shortcut_views(r@) =~= Seq::<ShortcutView>::empty());
            r
        },
    }
}

/// The entry to restart ZCode from on macOS: the bundle, with the flag when
/// launching with it is on.
pub fn find_preferred_impl(app: Option<&str>, enhanced: bool) -> (r: Option<ShortcutInfo>)
    ensures
        option_view(r) == match text_opt(app) {
            Some(a) => Some(bundle_entry(a, enhanced)),
            None => None,
        },
{
    match app {
        Some(a) => Some(shortcut_info(a, enhanced)),
        None => None,
    }
}

pub open spec fn state_opt(o: Option<LauncherState>) -> Option<LauncherStateView> {
    match o {
        Some(s) => Some(s@),
        None => None,
    }
}

/// Turning the flag on on macOS: the state to save (none when nothing
/// changes) and the report (changed, already on, found). After saving, a
/// running ZCode is restarted with the flag.
pub fn enable_impl(app: Option<&str>, state: &LauncherState) -> (r: (Option<LauncherState>, (usize, usize, usize)))
    ensures
        match text_opt(app) {
            None => state_opt(r.0) is None && r.1 == (0usize, 0usize, 0usize),
            Some(a) => if state@.enhanced {
                state_opt(r.0) is None && r.1 == (0usize, 1usize, 1usize)
            } else {
                state_opt(r.0) == Some(LauncherStateView { enhanced: true, app_path: Some(a) }) && r.1 == (
                1usize, 0usize, 1usize)
            },
        },
{
    match app {
        None => (None, (0, 0, 0)),
        Some(a) => {
            if state.enhanced {
                (None, (0, 1, 1))
            } else {
                (Some(LauncherState { enhanced: true, app_path: Some(owned(a)) }), (1, 0, 1))
            }
        },
    }
}

/// Turning the flag off on macOS: the state to save (none when it was off)
/// and the number of entries changed.
pub fn disable_impl(state: &LauncherState) -> (r: (Option<LauncherState>, usize))
    ensures
        !state@.enhanced ==> state_opt(r.0) is None && r.1 == 0,
        state@.enhanced ==> state_opt(r.0) == Some(LauncherStateView { enhanced: false, ..state@ }) && r.1 == 1,
{
    if !state.enhanced {
        (None, 0)
    } else {
        let app_path = match &state.app_path {
            Some(p) => Some(p.clone()),
            None => None,
        };
        (Some(LauncherState { enhanced: false, app_path }), 1)
    }
}

/// What `str::to_lowercase` gives for `s` (Unicode lower case).
pub uninterp spec fn unicode_lower(s: Seq<char>) -> Seq<char>;

/// `str::to_lowercase`: the result is named `unicode_lower`.
#[verifier::external_body]
fn to_lowercase(s: &str) -> (r: String)
    ensures
        r@ == unicode_lower(s@),
{
    s.to_lowercase()
}

/// `s` with every trailing `.app` removed (`trim_end_matches(".app")`).
pub open spec fn trim_app_suffix(s: Seq<char>) -> Seq<char>
    decreases s.len(),
{
    if s.len() >= 4 && has_suffix(s, ".app"@) {
        trim_app_suffix(s.take(s.len() - 4))
    } else {
        s
    }
}

/// A directory entry is an app bundle by name (`.app`, any case).
pub open spec fn is_bundle_name(name: Seq<char>) -> bool {
    has_suffix(unicode_lower(name), ".app"@)
}

/// A bundle named exactly `ZCode.app`.
pub open spec fn is_exact_zcode(name: Seq<char>) -> bool {
    is_bundle_name(name) && name == "ZCode.app"@
}

/// A bundle whose name, without `.app`, is `zcode` in any case.
pub open spec fn is_loose_zcode(name: Seq<char>) -> bool {
    is_bundle_name(name) && unicode_lower(trim_app_suffix(name)) == "zcode"@
}

pub open spec fn first_with(names: Seq<Seq<char>>, p: spec_fn(Seq<char>) -> bool) -> Option<int> {
    if exists|i: int| 0 <= i < names.len() && p(names[i]) {
        Some(choose|i: int| 0 <= i < names.len() && p(names[i]) && forall|j: int| 0 <= j < i ==> !p(names[j]))
    } else {
        None
    }
}

/// Which entry of an applications folder is ZCode: the first named exactly
/// `ZCode.app`, or else the first whose name is `zcode.app` in any case.
pub open spec fn zcode_bundle_choice(names: Seq<Seq<char>>) -> Option<int> {
    match first_with(names, |n: Seq<char>| is_exact_zcode(n)) {
        Some(i) => Some(i),
        None => first_with(names, |n: Seq<char>| is_loose_zcode(n)),
    }
}

fn trim_app(s: &[char]) -> (r: Vec<char>)
    ensures
        r@ == trim_app_suffix(s@),
{
    let suffix = chars_of(".app");
    let mut j = s.len();
    assert(s@.take(j as int) == s@);
    while j >= 4 && ends_with(slice_chars(s, 0, j).as_slice(), suffix.as_slice())
        invariant
            j <= s@.len(),
            suffix@ == ".app"@,
            trim_app_suffix(s@) == trim_app_suffix(s@.take(j as int)),
        decreases j,
    {
        assert(s@.take(j as int).take(j - 4) == s@.take(j - 4));
        j = j - 4;
    }
    slice_chars(s, 0, j)
}

fn name_is_bundle(name: &str) -> (r: bool)
    ensures
        r == is_bundle_name(name@),
{
    let l = to_lowercase(name);
    ends_with(chars_of(l.as_str()).as_slice(), chars_of(".app").as_slice())
}

/// Which of the names in an applications folder is ZCode's bundle.
pub fn pick_zcode_app(names: &Vec<String>) -> (r: Option<usize>)
    ensures
        match r {
            Some(i) => zcode_bundle_choice(names@.map_values(|n: String| n@)) == Some(i as int),
            None => zcode_bundle_choice(names@.map_values(|n: String| n@)) is None,
        },
{
    let ghost nv = names@.map_values(|n: String| n@);
    let mut loose: Option<usize> = None;
    let n = names.len();
    for i in 0..n
        invariant
            n == names@.len(),
            nv == names@.map_values(|n: String| n@),
            forall|j: int| 0 <= j < i ==> !is_exact_zcode(#[trigger] nv[j]),
            match loose {
                Some(k) => k < i && is_loose_zcode(nv[k as int]) && forall|j: int|
                    0 <= j < k ==> !is_loose_zcode(#[trigger] nv[j]),
                None => forall|j: int| 0 <= j < i ==> !is_loose_zcode(#[trigger] nv[j]),
            },
    {
        let name = names[i].as_str();
        assert(nv[i as int] == name@);
        if name_is_bundle(name) {
            if crate::json::str_eq(name, "ZCode.app") {
                proof {
                    let p = |n: Seq<char>| is_exact_zcode(n);
                    assert(p(nv[i as int]));
                    let c = choose|k: int| 0 <= k < nv.len() && p(nv[k]) && forall|j: int| 0 <= j < k ==> !p(nv[j]);
                    if c < i {
                        assert(!is_exact_zcode(nv[c]));
                    } else if c > i {
                        assert(!p(nv[i as int]));
                    }
                }
                return Some(i);
            }
            if loose.is_none() {
                let t = trim_app(chars_of(name).as_slice());
                let l = to_lowercase(string_of(t.as_slice()).as_str());
                if crate::json::str_eq(l.as_str(), "zcode") {
                    loose = Some(i);
                }
            }
        }
    }
    proof {
        let p = |n: Seq<char>| is_exact_zcode(n);
        assert(!(exists|i: int| 0 <= i < nv.len() && p(nv[i])));
        let q = |n: Seq<char>| is_loose_zcode(n);
        match loose {
            Some(k) => {
                assert(q(nv[k as int]));
                let c = choose|m: int| 0 <= m < nv.len() && q(nv[m]) && forall|j: int| 0 <= j < m ==> !q(nv[j]);
                if c < k {
                    assert(!is_loose_zcode(nv[c]));
                } else if c > k {
                    assert(!q(nv[k as int]));
                }
            },
            None => {
                assert(!(exists|i: int| 0 <= i < nv.len() && q(nv[i])));
            },
        }
    }
    loose
}

// ---------------------------------------------------------------------------
// The bundle that contains an executable (macOS)
// ---------------------------------------------------------------------------

pub proof fn lemma_after_last_len(s: Seq<char>, c: char)
    ensures
        after_last(s, c).len() <= s.len(),
        s.len() > 0 && s.last() != c ==> after_last(s, c).len() > 0,
        after_last(s, c) == s.subrange(s.len() - after_last(s, c).len(), s.len() as int),
    decreases s.len(),
{
    if s.len() > 0 {
        lemma_after_last_len(s.drop_last(), c);
        if s.last() != c {
            let a = after_last(s.drop_last(), c);
            assert(a.push(s.last()) =~= s.subrange(s.len() - a.len() - 1, s.len() as int));
        } else {
            assert(s.subrange(s.len() as int, s.len() as int) =~= Seq::<char>::empty());
        }
    } else {
        assert(s.subrange(0, 0) =~= s);
    }
}

/// A path component is a bundle when its extension is `app`: it ends with
/// `.app` after at least one other character.
pub open spec fn is_bundle_component(seg: Seq<char>) -> bool {
    seg.len() > 4 && has_suffix(seg, ".app"@)
}

/// Where the last bundle component of a `/`-separated path ends, if it has
/// one: trailing separators are skipped, then the last component is looked
/// at, then the path before it.
pub open spec fn bundle_end(s: Seq<char>) -> Option<int>
    decreases s.len(),
{
    if s.len() == 0 {
        None
    } else if s.last() == '/' {
        bundle_end(s.drop_last())
    } else if is_bundle_component(after_last(s, '/')) {
        Some(s.len() as int)
    } else {
        proof {
            lemma_after_last_len(s, '/');
        }
        bundle_end(s.take(s.len() - after_last(s, '/').len()))
    }
}

/// A path rest made only of separators and `.` components.
pub open spec fn dots_only(s: Seq<char>) -> bool
    decreases s.len(),
{
    if s.len() == 0 {
        true
    } else if s.last() == '/' {
        dots_only(s.drop_last())
    } else {
        proof {
            lemma_after_last_len(s, '/');
        }
        after_last(s, '/') == "."@ && dots_only(s.take(s.len() - after_last(s, '/').len()))
    }
}

/// The `.app` bundle that contains a path, as `Path::ancestors` finds it
/// (the first ancestor whose extension is `app`): the path itself when the
/// bundle is its last component (before any `.` components), else the path
/// up to the end of the bundle's name.
pub open spec fn app_bundle(s: Seq<char>) -> Option<Seq<char>> {
    match bundle_end(s) {
        None => None,
        Some(e) => if dots_only(s.skip(e)) {
            Some(s)
        } else {
            Some(s.take(e))
        },
    }
}

fn is_bundle_chars(seg: &[char]) -> (r: bool)
    ensures
        r == is_bundle_component(seg@),
{
    seg.len() > 4 && ends_with(seg, chars_of(".app").as_slice())
}

fn bundle_end_of(s: &[char]) -> (r: Option<usize>)
    ensures
        match r {
            Some(e) => bundle_end(s@) == Some(e as int) && e <= s@.len(),
            None => bundle_end(s@) is None,
        },
{
    let n = s.len();
    let mut j = n;
    assert(s@.take(n as int) =~= s@);
    while j > 0
        invariant
            n == s@.len(),
            j <= n,
            bundle_end(s@) == bundle_end(s@.take(j as int)),
        decreases j,
    {
        let t = slice_chars(s, 0, j);
        assert(t@ == s@.take(j as int));
        if s[j - 1] == '/' {
            assert(s@.take(j as int).drop_last() =~= s@.take(j - 1));
            j = j - 1;
        } else {
            let seg = crate::text::after_last_char(t.as_slice(), '/');
            if is_bundle_chars(seg.as_slice()) {
                return Some(j);
            }
            proof {
                lemma_after_last_len(t@, '/');
            }
            let k = j - seg.len();
            assert(s@.take(j as int).take(k as int) =~= s@.take(k as int));
            j = k;
        }
    }
    assert(s@.take(0) =~= Seq::<char>::empty());
    None
}

fn dots_only_chars(s: &[char]) -> (r: bool)
    ensures
        r == dots_only(s@),
{
    let n = s.len();
    let mut j = n;
    assert(s@.take(n as int) =~= s@);
    while j > 0
        invariant
            n == s@.len(),
            j <= n,
            dots_only(s@) == dots_only(s@.take(j as int)),
        decreases j,
    {
        let t = slice_chars(s, 0, j);
        assert(t@ == s@.take(j as int));
        if s[j - 1] == '/' {
            assert(s@.take(j as int).drop_last() =~= s@.take(j - 1));
            j = j - 1;
        } else {
            let seg = crate::text::after_last_char(t.as_slice(), '/');
            proof {
                lemma_after_last_len(t@, '/');
            }
            if !crate::text::chars_eq_str(seg.as_slice(), ".") {
                return false;
            }
            let k = j - seg.len();
            assert(s@.take(j as int).take(k as int) =~= s@.take(k as int));
            j = k;
        }
    }
    assert(s@.take(0) =~= Seq::<char>::empty());
    true
}

/// The `.app` bundle that contains a macOS path, if any.
pub fn macos_app_bundle(path: &str) -> (r: Option<String>)
    ensures
        match r {
            Some(b) => app_bundle(path@) == Some(b@),
            None => app_bundle(path@) is None,
        },
{
    let cs = chars_of(path);
    match bundle_end_of(cs.as_slice()) {
        None => None,
        Some(e) => {
            let rest = slice_chars(cs.as_slice(), e, cs.len());
            assert(rest@ == path@.skip(e as int));
            if dots_only_chars(rest.as_slice()) {
                Some(owned(path))
            } else {
                let head = slice_chars(cs.as_slice(), 0, e);
                Some(string_of(head.as_slice()))
            }
        },
    }
}

} // verus!
