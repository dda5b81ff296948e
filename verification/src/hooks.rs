//! The compile-commands hook: while steps run, each C/C++ toolchain
//! invocation is recognized heuristically and recorded; at the end of the
//! build the records are drained in arrival order for the surrounding
//! binary to serialize. The records may cross worker boundaries, so they
//! accumulate in a crossbeam queue held behind trusted wrappers.

use vstd::prelude::*;
use vstd::string::*;

use crossbeam::queue::SegQueue;

use crate::util::find_last_char;
use crate::util::find_last_char_in;
use crate::util::spec_contains_sub;
use crate::util::str_contains;

verus! {

/// One entry of a compile-commands database: working directory, full
/// argv, and the file the command produces.
#[derive(Debug, PartialEq, Eq)]
pub struct CompileCommand {
    pub directory: String,
    pub arguments: Vec<String>,
    pub file: String,
}

/// The mathematical shadow of a [`CompileCommand`].
#[verifier::ext_equal]
pub struct CompileCommandV {
    pub directory: Seq<char>,
    pub arguments: Seq<Seq<char>>,
    pub file: Seq<char>,
}

impl View for CompileCommand {
    type V = CompileCommandV;

    open spec fn view(&self) -> CompileCommandV {
        CompileCommandV {
            directory: self.directory@,
            arguments: self.arguments.deep_view(),
            file: self.file@,
        }
    }
}

/// What the pre-step hook recorded for one recognized invocation.
#[derive(Debug, PartialEq, Eq)]
pub struct HookResult {
    pub compile_cmd: CompileCommand,
}

impl View for HookResult {
    type V = CompileCommandV;

    open spec fn view(&self) -> CompileCommandV {
        self.compile_cmd@
    }
}

#[verifier::external_type_specification]
#[verifier::external_body]
#[verifier::reject_recursive_types(T)]
pub struct ExSegQueue<T>(SegQueue<T>);

/// What the hook queue holds, front to back.
pub uninterp spec fn seg_queue_view(q: SegQueue<HookResult>) -> Seq<HookResult>;

/// The records a queue content stands for, in order.
pub open spec fn hooks_view(s: Seq<HookResult>) -> Seq<CompileCommandV> {
    s.map_values(|h: HookResult| h@)
}

/// How `hooks_view` reads one record.
pub proof fn lemma_hooks_view_index(s: Seq<HookResult>, i: int)
    requires
        0 <= i < s.len(),
    ensures
        hooks_view(s).len() == s.len(),
        hooks_view(s)[i] == s[i]@,
{
    assert(hooks_view(s)[i] == s[i]@);
}

/// Relies on crossbeam's SegQueue::new: a fresh queue is empty.
#[verifier::external_body]
pub fn new_hook_queue() -> (r: SegQueue<HookResult>)
    ensures
        seg_queue_view(r) == Seq::<HookResult>::empty(),
{
    SegQueue::new()
}

/// Relies on crossbeam's SegQueue::push: appends the element at the tail.
#[verifier::external_body]
fn hook_queue_push(q: &mut SegQueue<HookResult>, h: HookResult)
    ensures
        seg_queue_view(*final(q)) == seg_queue_view(*old(q)).push(h),
{
    q.push(h)
}

/// Relies on crossbeam's SegQueue::pop: takes the head element, or
/// returns nothing from an empty queue.
#[verifier::external_body]
fn hook_queue_pop(q: &mut SegQueue<HookResult>) -> (r: Option<HookResult>)
    ensures
        match r {
            Some(h) => seg_queue_view(*old(q)).len() > 0 && h == seg_queue_view(*old(q))[0]
                && seg_queue_view(*final(q)) == seg_queue_view(*old(q)).drop_first(),
            None => seg_queue_view(*old(q)).len() == 0 && seg_queue_view(*final(q))
                == seg_queue_view(*old(q)),
        },
{
    q.pop()
}

/// The extension of a path: what follows the last `.` of its last
/// segment, provided the segment does not begin with that dot.
pub open spec fn spec_path_extension(p: Seq<char>) -> Option<Seq<char>> {
    let base = match find_last_char(p, '/') {
        Some(i) => p.skip(i + 1),
        None => p,
    };
    match find_last_char(base, '.') {
        Some(i) => if i > 0 {
            Some(base.skip(i + 1))
        } else {
            None
        },
        None => None,
    }
}

/// The extension of `p`, if it has one.
fn path_extension(p: &str) -> (r: Option<String>)
    ensures
        match r {
            Some(e) => spec_path_extension(p@) == Some(e@),
            None => spec_path_extension(p@) is None,
        },
{
    let n: usize = p.unicode_len();
    let base = match find_last_char_in(p, '/') {
        Some(i) => p.substring_char(i + 1, n),
        None => p,
    };
    proof {
        assert(base@ =~= (match find_last_char(p@, '/') {
            Some(i) => p@.skip(i + 1),
            None => p@,
        }));
    }
    let bn: usize = base.unicode_len();
    match find_last_char_in(base, '.') {
        Some(i) => {
            if i > 0 {
                let e = String::from_str(base.substring_char(i + 1, bn));
                proof {
                    assert(e@ =~= base@.skip(i + 1));
                }
                Some(e)
            } else {
                None
            }
        },
        None => None,
    }
}

/// The heuristic of the hook: the command has at least two tokens, its
/// program name mentions `gcc`, `g++` or `clang`, and some dependency's
/// extension holds the letter `c`.
pub open spec fn spec_is_compile_step(cmd: Seq<Seq<char>>, deps: Seq<Seq<char>>) -> bool {
    &&& cmd.len() >= 2
    &&& (spec_contains_sub(cmd[0], "gcc"@) || spec_contains_sub(cmd[0], "g++"@)
        || spec_contains_sub(cmd[0], "clang"@))
    &&& (exists|i: int|
        0 <= i < deps.len() && (#[trigger] spec_path_extension(deps[i]) matches Some(e)
            && spec_contains_sub(e, "c"@)))
}

/// Records the step as a compile command exactly when the heuristic
/// recognizes it: the source root as directory, the argv as arguments,
/// the target path as file.
pub fn pre_compile(
    out: &mut SegQueue<HookResult>,
    cmd: &Vec<String>,
    deps: &Vec<String>,
    target: &str,
    sourcedir: &str,
)
    ensures
        spec_is_compile_step(cmd.deep_view(), deps.deep_view()) ==> hooks_view(
            seg_queue_view(*final(out)),
        ) == hooks_view(seg_queue_view(*old(out))).push(
            CompileCommandV {
                directory: sourcedir@,
                arguments: cmd.deep_view(),
                file: target@,
            },
        ),
        !spec_is_compile_step(cmd.deep_view(), deps.deep_view()) ==> seg_queue_view(*final(out))
            == seg_queue_view(*old(out)),
{
    if cmd.len() < 2 {
        return;
    }
    proof {
        assert(cmd.deep_view()[0] == cmd@[0]@);
    }
    let exe = &cmd[0];
    let is_cc = str_contains(exe.as_str(), "gcc") || str_contains(exe.as_str(), "g++")
        || str_contains(exe.as_str(), "clang");
    if !is_cc {
        return;
    }
    let n = deps.len();
    let mut i: usize = 0;
    let mut c_dep = false;
    while i < n
        invariant
            i <= n,
            n == deps@.len(),
            !c_dep ==> (forall|q: int|
                0 <= q < i ==> !(#[trigger] spec_path_extension(deps.deep_view()[q]) matches Some(
                    e,
                ) && spec_contains_sub(e, "c"@))),
            c_dep ==> (exists|q: int|
                0 <= q < n && (#[trigger] spec_path_extension(deps.deep_view()[q]) matches Some(e)
                    && spec_contains_sub(e, "c"@))),
        decreases n - i,
    {
        proof {
            assert(deps.deep_view()[i as int] == deps@[i as int]@);
        }
        match path_extension(deps[i].as_str()) {
            Some(e) => {
                if str_contains(e.as_str(), "c") {
                    c_dep = true;
                }
            },
            None => {},
        }
        i += 1;
    }
    if !c_dep {
        return;
    }
    let mut arguments: Vec<String> = Vec::new();
    let mut k: usize = 0;
    while k < cmd.len()
        invariant
            k <= cmd@.len(),
            arguments@.len() == k,
            forall|q: int| 0 <= q < k ==> arguments@[q]@ == cmd@[q]@,
        decreases cmd@.len() - k,
    {
        arguments.push(cmd[k].clone());
        k += 1;
    }
    let record = HookResult {
        compile_cmd: CompileCommand {
            directory: String::from_str(sourcedir),
            arguments,
            file: String::from_str(target),
        },
    };
    let ghost record_v = record@;
    let ghost pre = seg_queue_view(*out);
    hook_queue_push(out, record);
    proof {
        assert(record_v.arguments =~= cmd.deep_view());
        assert forall|q: int| 0 <= q < hooks_view(seg_queue_view(*out)).len() implies hooks_view(
            seg_queue_view(*out),
        )[q] == hooks_view(pre).push(record_v)[q] by {
            lemma_hooks_view_index(seg_queue_view(*out), q);
            if q < pre.len() {
                lemma_hooks_view_index(pre, q);
                assert(seg_queue_view(*out)[q] == pre[q]);
            }
        }
        assert(hooks_view(seg_queue_view(*out)) =~= hooks_view(pre).push(record_v));
        assert(record_v =~= CompileCommandV {
            directory: sourcedir@,
            arguments: cmd.deep_view(),
            file: target@,
        });
    }
}

/// The records of drained compile commands, in order.
pub open spec fn ccs_view(s: Seq<CompileCommand>) -> Seq<CompileCommandV> {
    s.map_values(|c: CompileCommand| c@)
}

/// How `ccs_view` reads one record.
pub proof fn lemma_ccs_view_index(s: Seq<CompileCommand>, i: int)
    requires
        0 <= i < s.len(),
    ensures
        ccs_view(s).len() == s.len(),
        ccs_view(s)[i] == s[i]@,
{
    assert(ccs_view(s)[i] == s[i]@);
}

/// Empties the hook queue into a vector, arrival order preserved: what
/// the post-build serialization writes out.
pub fn drain_hooks(q: &mut SegQueue<HookResult>) -> (r: Vec<CompileCommand>)
    ensures
        ccs_view(r@) == hooks_view(seg_queue_view(*old(q))),
        seg_queue_view(*final(q)).len() == 0,
{
    let ghost orig = seg_queue_view(*q);
    let mut r: Vec<CompileCommand> = Vec::new();
    proof {
        assert(ccs_view(r@) =~= Seq::<CompileCommandV>::empty());
        assert(hooks_view(orig).skip(0) =~= hooks_view(orig));
    }
    loop
        invariant
            orig == seg_queue_view(*old(q)),
            ccs_view(r@) + hooks_view(seg_queue_view(*q)) =~= hooks_view(orig),
        decreases seg_queue_view(*q).len(),
    {
        let ghost pre_q = seg_queue_view(*q);
        let ghost pre_r = r@;
        match hook_queue_pop(q) {
            Some(h) => {
                let ghost h_v = h@;
                r.push(h.compile_cmd);
                proof {
                    assert forall|p: int| 0 <= p < ccs_view(r@).len() implies ccs_view(r@)[p]
                        == ccs_view(pre_r).push(h_v)[p] by {
                        lemma_ccs_view_index(r@, p);
                        if p < pre_r.len() {
                            lemma_ccs_view_index(pre_r, p);
                            assert(r@[p] == pre_r[p]);
                        }
                    }
                    assert(ccs_view(r@) =~= ccs_view(pre_r).push(h_v));
                    assert forall|p: int|
                        0 <= p < hooks_view(seg_queue_view(*q)).len() implies hooks_view(
                        seg_queue_view(*q),
                    )[p] == hooks_view(pre_q)[p + 1] by {
                        lemma_hooks_view_index(seg_queue_view(*q), p);
                        lemma_hooks_view_index(pre_q, p + 1);
                        assert(seg_queue_view(*q)[p] == pre_q.drop_first()[p]);
                    }
                    lemma_hooks_view_index(pre_q, 0);
                    assert(ccs_view(r@) + hooks_view(seg_queue_view(*q)) =~= ccs_view(pre_r)
                        + hooks_view(pre_q));
                }
            },
            None => {
                proof {
                    assert(hooks_view(seg_queue_view(*q)) =~= Seq::<CompileCommandV>::empty());
                    assert(ccs_view(r@) + Seq::<CompileCommandV>::empty() =~= ccs_view(r@));
                }
                return r;
            },
        }
    }
}

} // verus!
