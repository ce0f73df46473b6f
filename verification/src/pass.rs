//! One render pass over the widgets of an application.

use vstd::prelude::*;
use crate::context::KayakContext;
use crate::index::Index;
use crate::shape::{lemma_push_contains, NodeView};
use crate::tree::TreeError;
use crate::widget::Widget;

verus! {

/// What a render pass did.
#[derive(Clone, Debug, PartialEq, Eq)]
pub struct PassReport {
    /// The widgets that the pass handed out for their render, in order.
    pub handed: Vec<Index>,
    /// Whether the pass ran until no widget waited any more.
    pub complete: bool,
}

/// Whether every widget of `widgets` keeps its invariant.
pub open spec fn all_valid<W: Widget>(widgets: Seq<W>) -> bool {
    forall|k: int| 0 <= k < widgets.len() ==> (#[trigger] widgets[k]).valid()
}

/// The position of the first widget of `widgets` whose identifier is `id`,
/// or their number where there is none.
pub fn find_widget<W: Widget>(widgets: &Vec<W>, id: Index) -> (at: usize)
    ensures
        at <= widgets@.len(),
        at < widgets@.len() ==> widgets@[at as int].spec_id() == id,
        forall|k: int| 0 <= k < at ==> widgets@[k].spec_id() != id,
{
    let mut at: usize = 0;
    while at < widgets.len() && widgets[at].get_id() != id
        invariant
            at <= widgets@.len(),
            forall|k: int| 0 <= k < at ==> widgets@[k].spec_id() != id,
        decreases widgets@.len() - at,
    {
        at += 1;
    }
    at
}

/// Whether `handed` names the widgets of `dirty` first, in ascending order,
/// and other widgets only behind them.
pub open spec fn dirty_first(dirty: Set<Index>, handed: Seq<Index>) -> bool {
    forall|i: int, j: int|
        0 <= i < j < handed.len() && dirty.contains(#[trigger] handed[j]) ==> dirty.contains(
            #[trigger] handed[i],
        ) && handed[i].spec_precedes(handed[j])
}

/// Whether `x` is the least of the widgets of `dirty` that are nodes of
/// `tree`.
pub open spec fn least_live(dirty: Set<Index>, tree: Map<Index, NodeView>, x: Index) -> bool {
    &&& dirty.contains(x)
    &&& tree.contains_key(x)
    &&& forall|y: Index|
        dirty.contains(y) && #[trigger] tree.contains_key(y) ==> y == x || x.spec_precedes(y)
}

/// Runs one render pass: takes the dirty widgets as the widgets that wait,
/// in ascending order, and hands out one waiting widget after the other,
/// each to the first widget of `widgets` that has its identifier, which then
/// renders. What a render asks to render waits in the same pass, behind the
/// widgets that wait already; what is marked dirty meanwhile waits for the
/// next pass. The pass ends when no widget waits any more, or after `limit`
/// widgets were handed out.
///
/// No widget is handed out twice in a pass. The widgets that were dirty are
/// handed out first, in ascending order, beginning with the least that is
/// in the live tree. In a pass that runs to its end, every widget that was
/// dirty and in the live tree when the pass began, and is in the live tree
/// when it ends, was handed out exactly once.
///
/// The first render that fails ends the pass with its error; what earlier
/// renders merged stays merged, and every widget that was dirty has been
/// taken from the queue or waits in it still.
pub fn run_pass<W: Widget>(context: &mut KayakContext, widgets: &mut Vec<W>, limit: usize) -> (r:
    Result<PassReport, TreeError>)
    requires
        old(context).wf(),
        all_valid(old(widgets)@),
    ensures
        final(context).wf(),
        final(context).clicked() == old(context).clicked(),
        all_valid(final(widgets)@),
        final(widgets)@.len() == old(widgets)@.len(),
        forall|k: int|
            0 <= k < old(widgets)@.len() ==>
                (#[trigger] final(widgets)@[k]).spec_id() == old(widgets)@[k].spec_id(),
        limit == 0 ==> r is Ok,
        old(context).registry().dirty() == Set::<Index>::empty() ==> r is Ok,
        forall|x: Index|
            #[trigger] old(context).registry().dirty().contains(x) ==>
                final(context).pass().rendered().contains(x)
                    || final(context).pass().pending().contains(x),
        r matches Ok(report) ==> {
            &&& report.complete || report.handed@.len() == limit
            &&& report.handed@.len() <= limit
            &&& report.handed@.no_duplicates()
            &&& forall|x: Index|
                report.handed@.contains(x) ==> final(context).pass().rendered().contains(x)
            &&& dirty_first(old(context).registry().dirty(), report.handed@)
            &&& limit > 0 && (exists|x: Index|
                old(context).registry().dirty().contains(x)
                    && #[trigger] old(context).live_tree()@.contains_key(x)) ==>
                        report.handed@.len() > 0 && least_live(
                old(context).registry().dirty(),
                old(context).live_tree()@,
                report.handed@[0],
            )
            &&& report.complete ==> final(context).pass().pending().len() == 0
            &&& report.complete ==> forall|x: Index|
                old(context).registry().dirty().contains(x)
                    && old(context).live_tree()@.contains_key(x)
                        && #[trigger] final(context).live_tree()@.contains_key(x) ==>
                            report.handed@.contains(x)
        },
{
    let ghost dirty = context.registry().dirty();
    let ghost first = context.live_tree();
    context.begin_pass();
    let ghost sorted = context.pass().pending();
    let ghost mut taken: int = 0;
    let mut handed: Vec<Index> = Vec::new();
    let mut complete = false;
    proof {
        first.lemma_wf();
        assert forall|x: Index| dirty.contains(x) <==> sorted.contains(x) by {
            assert(sorted.to_set().contains(x) <==> sorted.contains(x));
        }
        assert(sorted.subrange(0, 0) =~= Seq::<Index>::empty());
    }
    while !complete && handed.len() < limit
        invariant
            context.wf(),
            first == old(context).live_tree(),
            first.wf(),
            dirty == old(context).registry().dirty(),
            context.clicked() == old(context).clicked(),
            all_valid(widgets@),
            widgets@.len() == old(widgets)@.len(),
            forall|k: int|
                0 <= k < old(widgets)@.len() ==>
                    (#[trigger] widgets@[k]).spec_id() == old(widgets)@[k].spec_id(),
            handed@.len() <= limit,
            handed@.no_duplicates(),
            forall|x: Index| handed@.contains(x) ==> context.pass().rendered().contains(x),
            forall|x: Index| #[trigger] first.issued(x) ==> context.live_tree().issued(x),
            forall|x: Index|
                dirty.contains(x) && #[trigger] first@.contains_key(x) ==> handed@.contains(x)
                    || context.pass().pending().contains(x) || !context.live_tree()@.contains_key(
                    x,
                ),
            complete ==> context.pass().pending().len() == 0,
            crate::idset::ascending(sorted),
            forall|x: Index| dirty.contains(x) <==> sorted.contains(x),
            0 <= taken <= sorted.len(),
            context.pass().pending().len() >= sorted.len() - taken,
            forall|k: int|
                0 <= k < sorted.len() - taken ==> #[trigger] context.pass().pending()[k]
                    == sorted[taken + k],
            forall|k: int|
                sorted.len() - taken <= k < context.pass().pending().len() ==> !dirty.contains(
                    #[trigger] context.pass().pending()[k],
                ),
            forall|i: int|
                0 <= i < handed@.len() && dirty.contains(#[trigger] handed@[i]) ==> sorted.subrange(
                    0,
                    taken,
                ).contains(handed@[i]),
            forall|i: int|
                0 <= i < handed@.len() && !dirty.contains(#[trigger] handed@[i]) ==> taken
                    == sorted.len(),
            dirty_first(dirty, handed@),
            forall|x: Index|
                #[trigger] dirty.contains(x) ==> context.pass().rendered().contains(x)
                    || context.pass().pending().contains(x),
            handed@.len() == 0 ==> context.live_tree() == first && context.pass().pending().len()
                == sorted.len() - taken && forall|k: int|
                0 <= k < taken ==> !first@.contains_key(#[trigger] sorted[k]),
            handed@.len() > 0 ==> least_live(dirty, first@, handed@[0]),
        decreases limit - handed@.len() + (if complete { 0int } else { 1int }),
    {
        let ghost before = *context;
        let ghost listed = handed@;
        let ghost waiting = context.pass().pending();
        let ghost owed = sorted.len() - taken;
        match context.next_render() {
            None => {
                complete = true;
                proof {
                    assert forall|x: Index|
                        dirty.contains(x) && #[trigger] first@.contains_key(x) implies
                            handed@.contains(x) || context.pass().pending().contains(x)
                                || !context.live_tree()@.contains_key(x) by {
                        if waiting.contains(x) {
                            let j = waiting.index_of(x);
                            assert(waiting[j] == x);
                        }
                    }
                    assert forall|x: Index| #[trigger] dirty.contains(x) implies
                        context.pass().rendered().contains(x) by {
                        assert(waiting.subrange(0, waiting.len() as int) =~= waiting);
                    }
                    if listed.len() == 0 {
                        assert forall|k: int| 0 <= k < sorted.len() implies !first@.contains_key(
                            #[trigger] sorted[k],
                        ) by {
                            if k >= taken {
                                assert(waiting[k - taken] == sorted[k]);
                            }
                        }
                    }
                    taken = sorted.len() as int;
                }
            },
            Some(id) => {
                handed.push(id);
                let ghost mid = *context;
                proof {
                    let n = waiting.len() - mid.pass().pending().len();
                    assert(waiting[n - 1] == id);
                    assert forall|x: Index| handed@.contains(x) implies
                        mid.pass().rendered().contains(x) by {
                        lemma_push_contains(listed, id, x);
                    }
                    assert(!listed.contains(id));
                    assert forall|x: Index|
                        dirty.contains(x) && #[trigger] first@.contains_key(x) implies
                            handed@.contains(x) || mid.pass().pending().contains(x)
                                || !mid.live_tree()@.contains_key(x) by {
                        lemma_push_contains(listed, id, x);
                        if waiting.contains(x) {
                            let j = waiting.index_of(x);
                            assert(waiting[j] == x);
                            if j >= n {
                                assert(mid.pass().pending()[j - n] == x);
                            }
                        }
                    }
                    assert forall|x: Index| #[trigger] dirty.contains(x) implies
                        mid.pass().rendered().contains(x) || mid.pass().pending().contains(x) by {
                        if waiting.contains(x) {
                            let j = waiting.index_of(x);
                            assert(waiting[j] == x);
                            if j >= n {
                                assert(mid.pass().pending()[j - n] == x);
                            } else {
                                assert(waiting.subrange(0, n)[j] == x);
                            }
                        }
                    }
                    let next = if n <= owed {
                        taken + n
                    } else {
                        sorted.len() as int
                    };
                    if n <= owed {
                        assert(id == sorted[taken + n - 1]);
                        assert(sorted.contains(id));
                        assert(sorted.subrange(0, next)[taken + n - 1] == id);
                        assert forall|i: int| 0 <= i < listed.len() implies dirty.contains(
                            #[trigger] listed[i],
                        ) && listed[i].spec_precedes(id) by {
                            assert(handed@[i] == listed[i]);
                            let at = sorted.subrange(0, taken).index_of(listed[i]);
                            assert(sorted[at] == listed[i]);
                        }
                    } else {
                        assert(!dirty.contains(id));
                    }
                    assert forall|i: int|
                        0 <= i < handed@.len() && dirty.contains(#[trigger] handed@[i]) implies
                            sorted.subrange(0, next).contains(handed@[i]) by {
                        if i < listed.len() {
                            assert(handed@[i] == listed[i]);
                            let at = sorted.subrange(0, taken).index_of(listed[i]);
                            assert(sorted.subrange(0, next)[at] == listed[i]);
                        }
                    }
                    assert(dirty_first(dirty, handed@)) by {
                        assert forall|i: int, j: int|
                            0 <= i < j < handed@.len() && dirty.contains(
                                #[trigger] handed@[j],
                            ) implies dirty.contains(#[trigger] handed@[i])
                            && handed@[i].spec_precedes(handed@[j]) by {
                            assert(handed@[i] == listed[i]);
                            if j < listed.len() {
                                assert(handed@[j] == listed[j]);
                            }
                        }
                    }
                    if listed.len() == 0 {
                        assert(n <= owed);
                        assert forall|y: Index|
                            dirty.contains(y) && #[trigger] first@.contains_key(y) implies y == id
                            || id.spec_precedes(y) by {
                            let at = sorted.index_of(y);
                            assert(sorted[at] == y);
                            if at < taken + n - 1 && at >= taken {
                                assert(waiting[at - taken] == y);
                            }
                        }
                    } else {
                        assert(handed@[0] == listed[0]);
                    }
                    assert forall|k: int|
                        0 <= k < sorted.len() - next implies
                            #[trigger] mid.pass().pending()[k] == sorted[next + k] by {
                        assert(mid.pass().pending()[k] == waiting[k + n]);
                    }
                    assert forall|k: int|
                        sorted.len() - next <= k < mid.pass().pending().len() implies
                            !dirty.contains(#[trigger] mid.pass().pending()[k]) by {
                        assert(mid.pass().pending()[k] == waiting[k + n]);
                    }
                    taken = next;
                }
                let at = find_widget(widgets, id);
                if at < widgets.len() {
                    match widgets[at].render(context) {
                        Ok(_) => {},
                        Err(e) => {
                            proof {
                                assert forall|x: Index| #[trigger] dirty.contains(x) implies
                                    context.pass().rendered().contains(x)
                                        || context.pass().pending().contains(x) by {
                                    if mid.pass().pending().contains(x) {
                                        let j = mid.pass().pending().index_of(x);
                                        assert(context.pass().pending()[j] == x);
                                    }
                                }
                            }
                            return Err(e);
                        },
                    }
                    proof {
                        first.lemma_wf();
                        context.pass().lemma_wf();
                        assert forall|x: Index|
                            dirty.contains(x) && #[trigger] first@.contains_key(x) implies
                                handed@.contains(x) || context.pass().pending().contains(x)
                                    || !context.live_tree()@.contains_key(x) by {
                            if mid.pass().pending().contains(x) {
                                let j = mid.pass().pending().index_of(x);
                                assert(context.pass().pending()[j] == x);
                            }
                            assert(first.issued(x));
                            assert(mid.live_tree().issued(x));
                        }
                        assert forall|x: Index| #[trigger] dirty.contains(x) implies
                            context.pass().rendered().contains(x)
                                || context.pass().pending().contains(x) by {
                            if mid.pass().pending().contains(x) {
                                let j = mid.pass().pending().index_of(x);
                                assert(context.pass().pending()[j] == x);
                            }
                        }
                        assert forall|k: int|
                            sorted.len() - taken <= k < context.pass().pending().len() implies
                                !dirty.contains(#[trigger] context.pass().pending()[k]) by {
                            let y = context.pass().pending()[k];
                            assert(context.pass().pending().contains(y));
                            if k < mid.pass().pending().len() {
                                assert(mid.pass().pending()[k] == y);
                            } else if mid.pass().pending().contains(y) {
                                let j = mid.pass().pending().index_of(y);
                                assert(context.pass().pending()[j] == y);
                            }
                        }
                        assert forall|k: int| 0 <= k < sorted.len() - taken implies
                            #[trigger] context.pass().pending()[k] == sorted[taken + k] by {
                            assert(context.pass().pending()[k] == mid.pass().pending()[k]);
                        }
                    }
                }
            },
        }
    }
    proof {
        if complete {
            assert forall|x: Index|
                dirty.contains(x) && first@.contains_key(x)
                    && #[trigger] context.live_tree()@.contains_key(
                    x,
                ) implies handed@.contains(x) by {
                if context.pass().pending().contains(x) {
                    assert(context.pass().pending().len() > 0);
                }
            }
        }
        if handed@.len() == 0 && limit > 0 {
            assert forall|x: Index| dirty.contains(x) implies !first@.contains_key(x) by {
                let at = sorted.index_of(x);
                assert(sorted[at] == x);
            }
        }
    }
    Ok(PassReport { handed, complete })
}

} // verus!
