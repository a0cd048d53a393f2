use vstd::prelude::*;
use vstd::utf8::encode_utf8;

use crate::stage::{actor_window_label, hex_lower, is_actor_window_label};
use crate::text::{insert_sorted_unique, seq_starts_with, string_views, strictly_ascending,
    strings_contain};

verus! {

/// An actor of the installed world pack, as the window layout sees it: whether it has a
/// renderer decides whether it gets a window.
#[derive(Clone, Debug, PartialEq, Eq)]
pub struct ActorSurfaceEntry {
    pub actor_id: String,
    pub display_name: String,
    pub renderable: bool,
}

/// The window that an actor is shown in, numbered among the actors that have windows.
#[derive(Clone, Debug, PartialEq, Eq)]
pub struct ActorWindowSpec {
    pub actor_id: String,
    pub display_name: String,
    pub label: String,
    pub index: usize,
}

/// The label of an actor's window (see `actor_window_label`).
pub open spec fn spec_window_label(actor_id: Seq<char>) -> Seq<char> {
    "actor-"@ + hex_lower(encode_utf8(actor_id))
}

/// A window spec as plain values: actor id, display name, label, index.
pub open spec fn window_spec_view(s: ActorWindowSpec) -> (Seq<char>, Seq<char>, Seq<char>, nat) {
    (s.actor_id@, s.display_name@, s.label@, s.index as nat)
}

/// A list of window specs as plain values.
pub open spec fn window_spec_views(v: Seq<ActorWindowSpec>) -> Seq<(Seq<char>, Seq<char>, Seq<char>, nat)> {
    v.map_values(|s: ActorWindowSpec| window_spec_view(s))
}

/// The windows wanted for the actors: one per renderable actor, in catalog order,
/// numbered from zero.
pub open spec fn spec_window_specs(actors: Seq<ActorSurfaceEntry>) -> Seq<(Seq<char>, Seq<char>, Seq<char>, nat)>
    decreases actors.len(),
{
    if actors.len() == 0 {
        Seq::empty()
    } else {
        let rest = spec_window_specs(actors.drop_last());
        let a = actors.last();
        if a.renderable {
            rest.push((a.actor_id@, a.display_name@, spec_window_label(a.actor_id@), rest.len()))
        } else {
            rest
        }
    }
}

/// The windows wanted for the actors: one per renderable actor, in catalog order,
/// numbered from zero.
pub fn actor_window_specs(actors: &Vec<ActorSurfaceEntry>) -> (specs: Vec<ActorWindowSpec>)
    ensures
        window_spec_views(specs@) == spec_window_specs(actors@),
{
    let mut specs: Vec<ActorWindowSpec> = Vec::new();
    let mut i: usize = 0;
    while i < actors.len()
        invariant
            i <= actors@.len(),
            specs@.len() <= i,
            window_spec_views(specs@) == spec_window_specs(actors@.take(i as int)),
        decreases actors@.len() - i,
    {
        proof {
            assert(actors@.take(i as int + 1).drop_last() =~= actors@.take(i as int));
        }
        let actor = &actors[i];
        if actor.renderable {
            let label = actor_window_label(actor.actor_id.as_str());
            let index = specs.len();
            specs.push(ActorWindowSpec {
                actor_id: actor.actor_id.clone(),
                display_name: actor.display_name.clone(),
                label,
                index,
            });
            proof {
                assert(window_spec_views(specs@) =~= spec_window_specs(actors@.take(i as int + 1)));
            }
        } else {
            proof {
                assert(window_spec_views(specs@) =~= spec_window_specs(actors@.take(i as int + 1)));
            }
        }
        i += 1;
    }
    proof {
        assert(actors@.take(actors@.len() as int) =~= actors@);
    }
    specs
}

/// The labels of a list of window specs.
pub open spec fn spec_labels(specs: Seq<(Seq<char>, Seq<char>, Seq<char>, nat)>) -> Seq<Seq<char>> {
    specs.map_values(|s: (Seq<char>, Seq<char>, Seq<char>, nat)| s.2)
}

/// The actor windows to close: labels of existing actor windows that no wanted window has.
pub open spec fn spec_close_labels(existing: Seq<Seq<char>>, desired: Seq<Seq<char>>) -> Set<Seq<char>> {
    Set::new(|l: Seq<char>| existing.contains(l) && seq_starts_with(l, "actor-"@) && !desired.contains(l))
}

/// The wanted windows that do not exist yet, in order.
pub open spec fn spec_create_specs(specs: Seq<(Seq<char>, Seq<char>, Seq<char>, nat)>, existing: Seq<Seq<char>>)
    -> Seq<(Seq<char>, Seq<char>, Seq<char>, nat)> {
    specs.filter(|s: (Seq<char>, Seq<char>, Seq<char>, nat)| !existing.contains(s.2))
}

/// The first `i + 1` texts hold `l` exactly when the first `i` do or the next one is `l`.
proof fn lemma_take_next_contains(s: Seq<Seq<char>>, i: int, l: Seq<char>)
    requires
        0 <= i < s.len(),
    ensures
        s.take(i + 1).contains(l) == (s.take(i).contains(l) || l == s[i]),
{
    let longer = s.take(i + 1);
    let shorter = s.take(i);
    if longer.contains(l) {
        let j = choose|j: int| 0 <= j < longer.len() && longer[j] == l;
        if j < i {
            assert(shorter[j] == l);
        }
    }
    if shorter.contains(l) {
        let j = choose|j: int| 0 <= j < shorter.len() && shorter[j] == l;
        assert(longer[j] == l);
    }
    if l == s[i] {
        assert(longer[i] == l);
    }
}

/// How the open windows must change to match the actors.
#[derive(Clone, Debug, PartialEq, Eq)]
pub struct ActorWindowReconcile {
    pub close_labels: Vec<String>,
    pub create_specs: Vec<ActorWindowSpec>,
    pub desired_specs: Vec<ActorWindowSpec>,
}

/// Compares the labels of the open windows with the windows the actors need: the actor
/// windows to close (in label order, each once), the windows to create (in catalog order),
/// and all the windows wanted.
pub fn reconcile_actor_windows(existing_labels: Vec<String>, actors: &Vec<ActorSurfaceEntry>)
    -> (r: ActorWindowReconcile)
    ensures
        window_spec_views(r.desired_specs@) == spec_window_specs(actors@),
        strictly_ascending(string_views(r.close_labels@)),
        string_views(r.close_labels@).to_set() == spec_close_labels(string_views(existing_labels@),
            spec_labels(spec_window_specs(actors@))),
        window_spec_views(r.create_specs@) == spec_create_specs(spec_window_specs(actors@),
            string_views(existing_labels@)),
{
    let specs = actor_window_specs(actors);
    let ghost wanted = spec_window_specs(actors@);
    let ghost existing = string_views(existing_labels@);
    let mut desired_labels: Vec<String> = Vec::new();
    let mut k: usize = 0;
    while k < specs.len()
        invariant
            window_spec_views(specs@) == wanted,
            k <= specs@.len(),
            string_views(desired_labels@) == spec_labels(wanted).take(k as int),
        decreases specs@.len() - k,
    {
        let ghost before = desired_labels@;
        proof {
            assert(window_spec_views(specs@).len() == specs@.len());
            assert(spec_labels(wanted).len() == wanted.len());
            assert(spec_labels(wanted).take(k as int).len() == k);
            assert(string_views(before).len() == before.len());
        }
        desired_labels.push(specs[k].label.clone());
        proof {
            assert(window_spec_views(specs@)[k as int] == window_spec_view(specs@[k as int]));
            assert(spec_labels(wanted)[k as int] == specs@[k as int].label@);
            assert(desired_labels@ == before.push(desired_labels@[k as int]));
            assert(string_views(desired_labels@).len() == k + 1);
            assert forall|m: int| 0 <= m < k + 1 implies #[trigger] string_views(desired_labels@)[m]
                == spec_labels(wanted)[m] by {
                if m < k {
                    assert(string_views(before)[m] == spec_labels(wanted).take(k as int)[m]);
                }
            }
            assert(string_views(desired_labels@) =~= spec_labels(wanted).take(k as int + 1));
        }
        k += 1;
    }
    proof {
        assert(spec_labels(wanted).take(specs@.len() as int) =~= spec_labels(wanted));
    }

    let mut close_labels: Vec<String> = Vec::new();
    let mut i: usize = 0;
    proof {
        assert(string_views(close_labels@).to_set() =~= spec_close_labels(existing.take(0),
            spec_labels(wanted)));
    }
    while i < existing_labels.len()
        invariant
            existing == string_views(existing_labels@),
            string_views(desired_labels@) == spec_labels(wanted),
            i <= existing_labels@.len(),
            strictly_ascending(string_views(close_labels@)),
            string_views(close_labels@).to_set() == spec_close_labels(existing.take(i as int),
                spec_labels(wanted)),
        decreases existing_labels@.len() - i,
    {
        let label = &existing_labels[i];
        let ghost before = string_views(close_labels@).to_set();
        proof {
            assert(existing[i as int] == label@);
        }
        proof {
            assert forall|l: Seq<char>| #[trigger] existing.take(i as int + 1).contains(l) == (
                existing.take(i as int).contains(l) || l == label@) by {
                lemma_take_next_contains(existing, i as int, l);
            }
        }
        if is_actor_window_label(label.as_str()) && !strings_contain(&desired_labels, label.as_str()) {
            insert_sorted_unique(&mut close_labels, label.clone());
        }
        proof {
            assert(string_views(close_labels@).to_set() =~= spec_close_labels(existing.take(
                i as int + 1), spec_labels(wanted)));
        }
        i += 1;
    }
    proof {
        assert(existing.take(existing_labels@.len() as int) =~= existing);
    }

    let mut create_specs: Vec<ActorWindowSpec> = Vec::new();
    let mut j: usize = 0;
    while j < specs.len()
        invariant
            window_spec_views(specs@) == wanted,
            existing == string_views(existing_labels@),
            j <= specs@.len(),
            window_spec_views(create_specs@) == spec_create_specs(wanted.take(j as int), existing),
        decreases specs@.len() - j,
    {
        let s = &specs[j];
        proof {
            reveal(Seq::filter);
            assert(wanted.take(j as int + 1).drop_last() =~= wanted.take(j as int));
            assert(wanted[j as int] == window_spec_view(*s));
        }
        if !strings_contain(&existing_labels, s.label.as_str()) {
            create_specs.push(ActorWindowSpec {
                actor_id: s.actor_id.clone(),
                display_name: s.display_name.clone(),
                label: s.label.clone(),
                index: s.index,
            });
            proof {
                reveal(Seq::filter);
                assert(window_spec_views(create_specs@) =~= spec_create_specs(wanted.take(j as int + 1), existing));
            }
        } else {
            proof {
                reveal(Seq::filter);
                assert(window_spec_views(create_specs@) =~= spec_create_specs(wanted.take(j as int + 1), existing));
            }
        }
        j += 1;
    }
    proof {
        assert(wanted.take(specs@.len() as int) =~= wanted);
    }
    ActorWindowReconcile { close_labels, create_specs, desired_specs: specs }
}

} // verus!
