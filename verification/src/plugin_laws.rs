//! What the table of grapples promises as a whole.

use crate::arithmetic::{lemma_half, lemma_le_transitive, lemma_one, lemma_proper_fraction};
use crate::float::Float;
use crate::grapple::{one, Grapple, GrappleConstraint, SwingBias};
use crate::laws::{
    finite_number, finite_vector, law_correction_is_whole, law_rope_length, law_unit_clamp,
    within_unit,
};
use crate::link::least_distance;
use crate::plane::difference;
use crate::plugin::{
    anchored, commanded, drawable, enforced_scene, enforced_table, lemma_patch_place, moved, patch,
    patch_of, patches, redrawn, woken_by, GrappleCommand, GrapplePlugin, Patch, Table,
};
use crate::precision::law_rigid_rope;
use crate::scalar::F32;
use crate::scene::{Body, Canvas, GameObject, Scene, Store, Target};
use vstd::arithmetic::power2::pow2;
use vstd::prelude::*;

verus! {

/// Whether the settings of a grapple are in their ranges: stiffness and damping from 0 to 1 or no
/// number, and a rope that is not too short to have a direction.
pub open spec fn ready(grapple: Grapple) -> bool {
    &&& within_unit(grapple.stiffness)
    &&& within_unit(grapple.damping)
    &&& least_distance().le(grapple.length)
}

/// Whether all grapples of a table have their settings in range.
pub open spec fn all_ready(table: Table) -> bool {
    forall|name: Seq<char>| #[trigger] table.contains_key(name) ==> ready(table[name])
}

/// What a setting command sets.
pub enum Setting {
    Length,
    Stiffness,
    Damping,
    Anchor,
    Bias,
}

/// The setting of a command, where it is one that sets something.
pub open spec fn setting(command: GrappleCommand) -> Option<Setting> {
    match command {
        GrappleCommand::Attach { .. } => None,
        GrappleCommand::Release { .. } => None,
        GrappleCommand::SetLength { .. } => Some(Setting::Length),
        GrappleCommand::SetStiffness { .. } => Some(Setting::Stiffness),
        GrappleCommand::SetDamping { .. } => Some(Setting::Damping),
        GrappleCommand::SetAnchor { .. } => Some(Setting::Anchor),
        GrappleCommand::SetAnchorObject { .. } => Some(Setting::Anchor),
        GrappleCommand::SetSwingBias { .. } => Some(Setting::Bias),
    }
}

/// Commands keep the settings in range, where an attached grapple comes with settings in range.
pub proof fn law_commands_keep_ready(table: Table, command: GrappleCommand, store: Store)
    requires
        all_ready(table),
        command matches GrappleCommand::Attach { grapple, .. } ==> ready(grapple@),
    ensures
        all_ready(commanded(table, command, store)),
{
    let after = commanded(table, command, store);
    assert forall|name: Seq<char>| #[trigger] after.contains_key(name) implies ready(
        after[name],
    ) by {
        match command {
            GrappleCommand::SetLength { value, .. } => {
                law_rope_length(value@);
                lemma_proper_fraction(1, 1000);
                lemma_le_transitive(least_distance(), one(), value@.max(one()));
            },
            GrappleCommand::SetStiffness { value, .. } => {
                law_unit_clamp(value@);
            },
            GrappleCommand::SetDamping { value, .. } => {
                law_unit_clamp(value@);
            },
            _ => {},
        }
        if table.contains_key(name) {
            assert(ready(table[name]));
        }
    }
}

/// Frames keep the settings in range.
pub proof fn law_frames_keep_ready(table: Table, store: Store)
    requires
        all_ready(table),
    ensures
        all_ready(enforced_table(store, table)),
{
    let after = enforced_table(store, table);
    lemma_proper_fraction(1, 1000);
    assert forall|name: Seq<char>| #[trigger] after.contains_key(name) implies ready(
        after[name],
    ) by {
        assert(table.contains_key(name));
        assert(ready(table[name]));
        let grapple = anchored(table[name], store);
        assert(ready(grapple));
    }
}

/// A command does nothing to the grapples of bodies that it is not for.
pub proof fn law_command_spares_others(
    table: Table,
    command: GrappleCommand,
    store: Store,
    name: Seq<char>,
)
    requires
        !command.names().contains(name),
    ensures
        commanded(table, command, store).contains_key(name) == table.contains_key(name),
        table.contains_key(name) ==> commanded(table, command, store)[name] == table[name],
{
}

/// Who has a grapple after a command: attaching gives one to all that the command is for, releasing
/// takes it from them, and settings neither give nor take.
pub proof fn law_who_has_a_grapple(
    table: Table,
    command: GrappleCommand,
    store: Store,
    name: Seq<char>,
)
    ensures
        ({
            let after = commanded(table, command, store);
            &&& command is Attach && command.names().contains(name) ==> after.contains_key(name)
            &&& command is Release && command.names().contains(name) ==> !after.contains_key(name)
            &&& setting(command) is Some ==> after.contains_key(name) == table.contains_key(name)
        }),
{
}

/// Releasing undoes attaching: a release for the same bodies gives what the release alone would
/// give, which is the first table where none of them had a grapple.
pub proof fn law_release_undoes_attach(
    table: Table,
    attach: GrappleCommand,
    release: GrappleCommand,
    store: Store,
    later: Store,
)
    requires
        attach is Attach,
        release is Release,
        attach.names() == release.names(),
    ensures
        commanded(commanded(table, attach, store), release, later) == commanded(
            table,
            release,
            later,
        ),
        (forall|name: Seq<char>| #[trigger]
            attach.names().contains(name) ==> !table.contains_key(name)) ==> commanded(
            commanded(table, attach, store),
            release,
            later,
        ) == table,
{
    let after = commanded(commanded(table, attach, store), release, later);
    assert(after =~= commanded(table, release, later));
    if forall|name: Seq<char>| #[trigger]
        attach.names().contains(name) ==> !table.contains_key(name) {
        assert(after =~= table);
    }
}

/// Of two grapples attached to the same bodies the later one counts.
pub proof fn law_last_attach_counts(
    table: Table,
    first: GrappleCommand,
    second: GrappleCommand,
    store: Store,
    later: Store,
)
    requires
        first is Attach,
        second is Attach,
        first.names() == second.names(),
    ensures
        commanded(commanded(table, first, store), second, later) == commanded(
            table,
            second,
            later,
        ),
{
    assert(commanded(commanded(table, first, store), second, later) =~= commanded(
        table,
        second,
        later,
    ));
}

/// Of two values for the same setting of the same bodies the later one counts. A body to follow
/// leaves the point where the anchor is, so it does not undo a point that was set before.
pub proof fn law_last_setting_counts(
    table: Table,
    first: GrappleCommand,
    second: GrappleCommand,
    store: Store,
    later: Store,
)
    requires
        setting(first) is Some,
        setting(first) == setting(second),
        !(first is SetAnchor && second is SetAnchorObject),
        first.names() == second.names(),
    ensures
        commanded(commanded(table, first, store), second, later) == commanded(
            table,
            second,
            later,
        ),
{
    assert forall|g: Grapple| #[trigger] second.edited(first.edited(g)) == second.edited(g) by {
    }
    assert(commanded(commanded(table, first, store), second, later) =~= commanded(
        table,
        second,
        later,
    ));
}

/// Different settings do not depend on the order in which they are given, whatever bodies they are
/// for.
pub proof fn law_settings_commute(
    table: Table,
    first: GrappleCommand,
    second: GrappleCommand,
    store: Store,
    later: Store,
)
    requires
        setting(first) is Some,
        setting(second) is Some,
        setting(first) != setting(second),
    ensures
        commanded(commanded(table, first, store), second, later) == commanded(
            commanded(table, second, store),
            first,
            later,
        ),
{
    assert forall|g: Grapple| #[trigger]
        second.edited(first.edited(g)) == first.edited(second.edited(g)) by {
    }
    let a = commanded(commanded(table, first, store), second, later);
    let b = commanded(commanded(table, second, store), first, later);
    assert forall|name: Seq<char>| #[trigger] a.contains_key(name) implies a[name] == b[name] by {
        assert(second.edited(first.edited(table[name])) == first.edited(
            second.edited(table[name]),
        ));
    }
    assert(a =~= b);
}

/// The table after some frames, each with the bodies as the physics step left them.
pub open spec fn after_frames(table: Table, frames: Seq<Store>) -> Table
    decreases frames.len(),
{
    if frames.len() == 0 {
        table
    } else {
        enforced_table(frames.last(), after_frames(table, frames.drop_last()))
    }
}

/// A grapple that follows no body keeps its anchor, and goes on following none, through any number
/// of frames.
pub proof fn law_free_anchor_stays(table: Table, frames: Seq<Store>, name: Seq<char>)
    requires
        table.contains_key(name),
        table[name].anchor_object is None,
    ensures
        ({
            let after = after_frames(table, frames);
            &&& after.contains_key(name)
            &&& after[name].anchor == table[name].anchor
            &&& after[name].anchor_object is None
        }),
    decreases frames.len(),
{
    if frames.len() > 0 {
        law_free_anchor_stays(table, frames.drop_last(), name);
    }
}

/// An anchor that was set to a point stays there through any number of frames, however bodies move.
pub proof fn law_fixed_anchor_stays(
    table: Table,
    command: GrappleCommand,
    store: Store,
    frames: Seq<Store>,
    name: Seq<char>,
)
    requires
        command is SetAnchor,
        command.names().contains(name),
        table.contains_key(name),
    ensures
        ({
            let after = after_frames(commanded(table, command, store), frames);
            let point = (command->SetAnchor_x@, command->SetAnchor_y@);
            &&& after.contains_key(name)
            &&& after[name].anchor == point
            &&& after[name].anchor_object is None
        }),
{
    law_free_anchor_stays(commanded(table, command, store), frames, name);
}

/// A grapple that is attached to follow a body starts with its anchor in the middle of that body,
/// where the scene knows it, and following it again in the same scene changes nothing.
pub proof fn law_attach_anchors(
    table: Table,
    command: GrappleCommand,
    store: Store,
    name: Seq<char>,
)
    requires
        command is Attach,
        command.names().contains(name),
    ensures
        ({
            let after = commanded(table, command, store)[name];
            let given = command->grapple@;
            let leader = given.anchor_object;
            &&& after == (Grapple { anchor: after.anchor, ..given })
            &&& (leader is Some && store.find(leader->0) is Some) ==> after.anchor == store.find(
                leader->0,
            )->0.center()
            &&& (leader is None || store.find(leader->0) is None) ==> after.anchor == given.anchor
            &&& anchored(after, store) == after
        }),
{
}

/// A grapple that follows a body has its anchor in the middle of that body, as the physics step
/// left it, in every frame in which the scene knows the body; otherwise the anchor stays where it
/// was.
pub proof fn law_anchor_follows(table: Table, store: Store, name: Seq<char>)
    requires
        table.contains_key(name),
    ensures
        ({
            let after = enforced_table(store, table)[name];
            let leader = table[name].anchor_object;
            &&& after.anchor_object == leader
            &&& (leader is Some && store.find(leader->0) is Some) ==> after.anchor == store.find(
                leader->0,
            )->0.center()
            &&& (leader is None || store.find(leader->0) is None) ==> after.anchor
                == table[name].anchor
        }),
{
}

/// Each change comes from one of the names, and each name that has a change gives it.
proof fn lemma_patches(
    names: Seq<Seq<char>>,
    change_of: spec_fn(Seq<char>) -> Option<Patch>,
)
    ensures
        forall|i: int|
            0 <= i < patches(names, change_of).len() ==> exists|name: Seq<char>|
                #![trigger change_of(name)]
                names.contains(name) && change_of(name) == Some(
                    #[trigger] patches(names, change_of)[i],
                ),
        forall|name: Seq<char>|
            #![trigger change_of(name)]
            names.contains(name) && change_of(name) is Some ==> patches(names, change_of).contains(
                change_of(name)->0,
            ),
    decreases names.len(),
{
    let all = patches(names, change_of);
    if names.len() > 0 {
        let shorter = names.drop_last();
        let earlier = patches(shorter, change_of);
        let last = names.last();
        lemma_patches(shorter, change_of);
        assert(names[names.len() - 1] == last);
        assert forall|i: int| 0 <= i < all.len() implies exists|name: Seq<char>|
            #![trigger change_of(name)]
            names.contains(name) && change_of(name) == Some(#[trigger] all[i]) by {
            if i < earlier.len() {
                assert(all[i] == earlier[i]);
                let name = choose|name: Seq<char>|
                    #![trigger change_of(name)]
                    shorter.contains(name) && change_of(name) == Some(earlier[i]);
                let place = shorter.index_of(name);
                assert(names[place] == name);
                assert(names.contains(name) && change_of(name) == Some(all[i]));
            } else {
                assert(names.contains(last) && change_of(last) == Some(all[i]));
            }
        }
        assert forall|name: Seq<char>|
            #![trigger change_of(name)]
            names.contains(name) && change_of(name) is Some implies all.contains(
            change_of(name)->0,
        ) by {
            let place = names.index_of(name);
            let change = change_of(name)->0;
            if place < shorter.len() {
                assert(shorter[place] == name);
                assert(earlier.contains(change));
                let i = earlier.index_of(change);
                assert(all[i] == change);
            } else {
                assert(all[all.len() - 1] == change);
            }
        }
    }
}

/// Changes to other places do not concern a body.
proof fn lemma_untouched(
    list: Seq<Body>,
    offsets: Seq<(Float, Float)>,
    changes: Seq<Patch>,
    place: int,
)
    requires
        forall|i: int| 0 <= i < changes.len() ==> (#[trigger] changes[i]).index != place,
    ensures
        moved(list, changes).len() == list.len(),
        redrawn(offsets, changes).len() == offsets.len(),
        0 <= place < list.len() ==> moved(list, changes)[place] == list[place],
        0 <= place < offsets.len() ==> redrawn(offsets, changes)[place] == offsets[place],
    decreases changes.len(),
{
    if changes.len() > 0 {
        let earlier = changes.drop_last();
        assert(changes[changes.len() - 1] == changes.last());
        assert forall|i: int| 0 <= i < earlier.len() implies (#[trigger] earlier[i]).index
            != place by {
            assert(earlier[i] == changes[i]);
        }
        lemma_untouched(list, offsets, earlier, place);
    }
}

/// Changes leave the counts and the extents of bodies as they are.
proof fn lemma_shape(list: Seq<Body>, offsets: Seq<(Float, Float)>, changes: Seq<Patch>)
    ensures
        moved(list, changes).len() == list.len(),
        redrawn(offsets, changes).len() == offsets.len(),
        forall|place: int|
            0 <= place < list.len() ==> (#[trigger] moved(list, changes)[place]).size
                == list[place].size,
    decreases changes.len(),
{
    if changes.len() > 0 {
        lemma_shape(list, offsets, changes.drop_last());
    }
}

/// Where all changes to a place are the same one, the body there has it.
proof fn lemma_touched(
    list: Seq<Body>,
    offsets: Seq<(Float, Float)>,
    changes: Seq<Patch>,
    change: Patch,
)
    requires
        changes.contains(change),
        forall|i: int|
            0 <= i < changes.len() && (#[trigger] changes[i]).index == change.index
                ==> changes[i] == change,
    ensures
        0 <= change.index < list.len() ==> moved(list, changes)[change.index] == (Body {
            position: change.position,
            momentum: change.velocity,
            ..list[change.index]
        }),
        0 <= change.index < offsets.len() ==> redrawn(offsets, changes)[change.index]
            == change.position,
    decreases changes.len(),
{
    let earlier = changes.drop_last();
    lemma_shape(list, offsets, earlier);
    assert(changes[changes.len() - 1] == changes.last());
    if changes.last() != change {
        let i = changes.index_of(change);
        assert(earlier[i] == change);
        assert forall|i: int|
            0 <= i < earlier.len() && (#[trigger] earlier[i]).index
                == change.index implies earlier[i] == change by {
            assert(earlier[i] == changes[i]);
        }
        lemma_touched(list, offsets, earlier, change);
        assert(changes.last().index != change.index);
    }
}

/// A frame changes neither how many bodies there are, nor their extents and names, nor who is to be
/// woken.
pub proof fn law_frame_keeps_shape(scene: Scene, table: Table, order: Seq<Seq<char>>)
    ensures
        ({
            let after = enforced_scene(scene, table, order);
            &&& after.store.bodies.len() == scene.store.bodies.len()
            &&& after.offsets.len() == scene.offsets.len()
            &&& after.store.index == scene.store.index
            &&& after.woken == scene.woken
            &&& forall|place: int|
                0 <= place < scene.store.bodies.len() ==> (
                #[trigger] after.store.bodies[place]).size == scene.store.bodies[place].size
        }),
{
    let changes = patches(order, patch_of(scene.store, table));
    lemma_shape(scene.store.bodies, scene.offsets, changes);
}

/// Whether a place is the one of no change.
spec fn avoids(
    names: Seq<Seq<char>>,
    change_of: spec_fn(Seq<char>) -> Option<Patch>,
    place: int,
) -> bool {
    forall|name: Seq<char>|
        #![trigger change_of(name)]
        names.contains(name) && change_of(name) is Some ==> change_of(name)->0.index != place
}

/// Whether no two changes concern the same place.
spec fn apart(names: Seq<Seq<char>>, change_of: spec_fn(Seq<char>) -> Option<Patch>) -> bool {
    forall|a: Seq<char>, b: Seq<char>|
        #![trigger change_of(a), change_of(b)]
        names.contains(a) && names.contains(b) && change_of(a) is Some && change_of(b) is Some
            && change_of(a)->0.index == change_of(b)->0.index ==> a == b
}

proof fn lemma_avoided(
    list: Seq<Body>,
    offsets: Seq<(Float, Float)>,
    names: Seq<Seq<char>>,
    change_of: spec_fn(Seq<char>) -> Option<Patch>,
    place: int,
)
    requires
        avoids(names, change_of, place),
    ensures
        0 <= place < list.len() ==> moved(list, patches(names, change_of))[place] == list[place],
        0 <= place < offsets.len() ==> redrawn(offsets, patches(names, change_of))[place]
            == offsets[place],
{
    let changes = patches(names, change_of);
    lemma_patches(names, change_of);
    assert forall|i: int| 0 <= i < changes.len() implies (#[trigger] changes[i]).index != place by {
        let name = choose|name: Seq<char>|
            #![trigger change_of(name)]
            names.contains(name) && change_of(name) == Some(changes[i]);
        assert(change_of(name) is Some);
    }
    lemma_untouched(list, offsets, changes, place);
}

proof fn lemma_hit(
    list: Seq<Body>,
    offsets: Seq<(Float, Float)>,
    names: Seq<Seq<char>>,
    change_of: spec_fn(Seq<char>) -> Option<Patch>,
    name: Seq<char>,
)
    requires
        apart(names, change_of),
        names.contains(name),
        change_of(name) is Some,
    ensures
        ({
            let change = change_of(name)->0;
            &&& 0 <= change.index < list.len() ==> moved(list, patches(names, change_of))[change.index]
                == (Body {
                position: change.position,
                momentum: change.velocity,
                ..list[change.index]
            })
            &&& 0 <= change.index < offsets.len() ==> redrawn(
                offsets,
                patches(names, change_of),
            )[change.index] == change.position
        }),
{
    let changes = patches(names, change_of);
    let change = change_of(name)->0;
    lemma_patches(names, change_of);
    assert forall|i: int|
        0 <= i < changes.len() && (#[trigger] changes[i]).index == change.index implies changes[i]
        == change by {
        let other = choose|other: Seq<char>|
            #![trigger change_of(other)]
            names.contains(other) && change_of(other) == Some(changes[i]);
        assert(change_of(other) is Some);
    }
    lemma_touched(list, offsets, changes, change);
}

proof fn lemma_any_order(
    list: Seq<Body>,
    offsets: Seq<(Float, Float)>,
    names: Seq<Seq<char>>,
    others: Seq<Seq<char>>,
    change_of: spec_fn(Seq<char>) -> Option<Patch>,
)
    requires
        apart(names, change_of),
        forall|name: Seq<char>| #[trigger] names.contains(name) <==> others.contains(name),
    ensures
        moved(list, patches(names, change_of)) == moved(list, patches(others, change_of)),
        redrawn(offsets, patches(names, change_of)) == redrawn(
            offsets,
            patches(others, change_of),
        ),
{
    let a = patches(names, change_of);
    let b = patches(others, change_of);
    lemma_shape(list, offsets, a);
    lemma_shape(list, offsets, b);
    assert forall|place: int| 0 <= place < list.len() implies moved(list, a)[place] == moved(
        list,
        b,
    )[place] by {
        lemma_any_order_at(list, offsets, names, others, change_of, place);
    }
    assert forall|place: int| 0 <= place < offsets.len() implies redrawn(offsets, a)[place]
        == redrawn(offsets, b)[place] by {
        lemma_any_order_at(list, offsets, names, others, change_of, place);
    }
    assert(moved(list, a) =~= moved(list, b));
    assert(redrawn(offsets, a) =~= redrawn(offsets, b));
}

proof fn lemma_any_order_at(
    list: Seq<Body>,
    offsets: Seq<(Float, Float)>,
    names: Seq<Seq<char>>,
    others: Seq<Seq<char>>,
    change_of: spec_fn(Seq<char>) -> Option<Patch>,
    place: int,
)
    requires
        apart(names, change_of),
        forall|name: Seq<char>| #[trigger] names.contains(name) <==> others.contains(name),
    ensures
        0 <= place < list.len() ==> moved(list, patches(names, change_of))[place] == moved(
            list,
            patches(others, change_of),
        )[place],
        0 <= place < offsets.len() ==> redrawn(offsets, patches(names, change_of))[place]
            == redrawn(offsets, patches(others, change_of))[place],
{
    assert(apart(others, change_of));
    if avoids(names, change_of, place) {
        assert(avoids(others, change_of, place));
        lemma_avoided(list, offsets, names, change_of, place);
        lemma_avoided(list, offsets, others, change_of, place);
    } else {
        let name = choose|name: Seq<char>|
            #![trigger change_of(name)]
            names.contains(name) && change_of(name) is Some && change_of(name)->0.index == place;
        lemma_hit(list, offsets, names, change_of, name);
        lemma_hit(list, offsets, others, change_of, name);
    }
}

/// A frame leaves every body alone that no grapple corrects.
pub proof fn law_frame_spares_others(
    scene: Scene,
    table: Table,
    order: Seq<Seq<char>>,
    place: int,
)
    requires
        forall|name: Seq<char>|
            #![trigger patch(scene.store, table, name)]
            order.contains(name) && patch(scene.store, table, name) is Some ==> patch(
                scene.store,
                table,
                name,
            )->0.index != place,
    ensures
        ({
            let after = enforced_scene(scene, table, order);
            &&& 0 <= place < scene.store.bodies.len() ==> after.store.bodies[place]
                == scene.store.bodies[place]
            &&& 0 <= place < scene.offsets.len() ==> after.offsets[place] == scene.offsets[place]
        }),
{
    let change_of = patch_of(scene.store, table);
    assert forall|name: Seq<char>|
        #![trigger change_of(name)]
        order.contains(name) && change_of(name) is Some implies change_of(name)->0.index
        != place by {
        assert(change_of(name) == patch(scene.store, table, name));
    }
    lemma_avoided(scene.store.bodies, scene.offsets, order, change_of, place);
}

/// Frames neither give a grapple to anyone nor take one away.
pub proof fn law_frames_keep_holders(table: Table, frames: Seq<Store>, name: Seq<char>)
    ensures
        after_frames(table, frames).contains_key(name) == table.contains_key(name),
    decreases frames.len(),
{
    if frames.len() > 0 {
        law_frames_keep_holders(table, frames.drop_last(), name);
    }
}

/// A body that was released is free: after any number of frames the next one does not move it,
/// unless it is held under another name.
pub proof fn law_released_body_is_free(
    table: Table,
    release: GrappleCommand,
    store: Store,
    frames: Seq<Store>,
    scene: Scene,
    order: Seq<Seq<char>>,
    name: Seq<char>,
)
    requires
        release is Release,
        release.names().contains(name),
        scene.store.knows(name),
        forall|other: Seq<char>| #[trigger]
            order.contains(other) ==> after_frames(
                commanded(table, release, store),
                frames,
            ).contains_key(other),
        forall|other: Seq<char>| #[trigger]
            order.contains(other) && scene.store.knows(other) && other != name
                ==> scene.store.index[other] != scene.store.index[name],
    ensures
        ({
            let rest = after_frames(commanded(table, release, store), frames);
            let after = enforced_scene(scene, rest, order);
            let place = scene.store.index[name] as int;
            &&& after.store.bodies[place] == scene.store.bodies[place]
            &&& place < scene.offsets.len() ==> after.offsets[place] == scene.offsets[place]
        }),
{
    let rest = after_frames(commanded(table, release, store), frames);
    let place = scene.store.index[name] as int;
    law_frames_keep_holders(commanded(table, release, store), frames, name);
    assert forall|other: Seq<char>|
        #![trigger patch(scene.store, rest, other)]
        order.contains(other) && patch(scene.store, rest, other) is Some implies patch(
        scene.store,
        rest,
        other,
    )->0.index != place by {
        lemma_patch_place(scene.store, rest, other);
        assert(rest.contains_key(other));
    }
    law_frame_spares_others(scene, rest, order, place);
}

/// Whether no two of the names lead to the same body.
pub open spec fn separate(store: Store, names: Seq<Seq<char>>) -> bool {
    forall|a: Seq<char>, b: Seq<char>|
        #![trigger names.contains(a), names.contains(b)]
        names.contains(a) && names.contains(b) && store.knows(a) && store.knows(b)
            && store.index[a] == store.index[b] ==> a == b
}

proof fn lemma_separate(store: Store, table: Table, names: Seq<Seq<char>>)
    requires
        separate(store, names),
    ensures
        apart(names, patch_of(store, table)),
{
    let change_of = patch_of(store, table);
    assert forall|a: Seq<char>, b: Seq<char>|
        #![trigger change_of(a), change_of(b)]
        names.contains(a) && names.contains(b) && change_of(a) is Some && change_of(b) is Some
            && change_of(a)->0.index == change_of(b)->0.index implies a == b by {
        lemma_patch_place(store, table, a);
        lemma_patch_place(store, table, b);
        assert(change_of(a) == patch(store, table, a));
        assert(change_of(b) == patch(store, table, b));
    }
}

/// A frame corrects a body just as its grapple says, over what the physics step left, and draws it
/// where it is; its extent stays.
pub proof fn law_frame_corrects(
    scene: Scene,
    table: Table,
    order: Seq<Seq<char>>,
    name: Seq<char>,
)
    requires
        separate(scene.store, order),
        order.contains(name),
        patch(scene.store, table, name) is Some,
    ensures
        ({
            let after = enforced_scene(scene, table, order);
            let change = patch(scene.store, table, name)->0;
            &&& 0 <= change.index < scene.store.bodies.len()
            &&& after.store.bodies[change.index] == (Body {
                position: change.position,
                momentum: change.velocity,
                ..scene.store.bodies[change.index]
            })
            &&& change.index < scene.offsets.len() ==> after.offsets[change.index]
                == change.position
        }),
{
    let change_of = patch_of(scene.store, table);
    lemma_separate(scene.store, table, order);
    lemma_patch_place(scene.store, table, name);
    assert(change_of(name) == patch(scene.store, table, name));
    lemma_hit(scene.store.bodies, scene.offsets, order, change_of, name);
}

/// Whether a grapple and a body are within reach: all of their coordinates, extents and lengths are
/// finite and not greater than `reach`, and the rope is not too short to be measured.
pub open spec fn within_reach(grapple: Grapple, body: Body, reach: nat) -> bool {
    &&& finite_vector(grapple.anchor)
    &&& finite_vector(body.center())
    &&& finite_vector(body.half())
    &&& finite_number(grapple.length)
    &&& Float::zero().lt(grapple.length)
    &&& pow2(30) <= grapple.length->magnitude <= reach
    &&& grapple.anchor.0->magnitude <= reach
    &&& grapple.anchor.1->magnitude <= reach
    &&& body.center().0->magnitude <= reach
    &&& body.center().1->magnitude <= reach
    &&& body.half().0->magnitude <= reach
    &&& body.half().1->magnitude <= reach
    &&& reach <= pow2(272)
}

/// A rigid rope holds: after a frame a body that went beyond the end of a rope of full stiffness
/// has its middle at the rope's length from the anchor. The exact distance differs from the length
/// by one part in two to the power 18 of the reach at most. From below it holds where the distance
/// that was measured is not infinite: otherwise the body is brought to the anchor itself.
pub proof fn law_rigid_rope_holds(
    scene: Scene,
    table: Table,
    order: Seq<Seq<char>>,
    name: Seq<char>,
    reach: nat,
)
    requires
        separate(scene.store, order),
        order.contains(name),
        table.contains_key(name),
        scene.store.knows(name),
        ({
            let grapple = anchored(table[name], scene.store);
            let body = scene.store.find(name)->0;
            &&& grapple.taut(body.center())
            &&& grapple.stiffness == one()
            &&& within_reach(grapple, body, reach)
        }),
    ensures
        ({
            let body = scene.store.find(name)->0;
            let center = enforced_scene(scene, table, order).store.find(name)->0.center();
            let grapple = enforced_table(scene.store, table)[name];
            let p = center.0.units() - grapple.anchor.0.units();
            let q = center.1.units() - grapple.anchor.1.units();
            let length = grapple.length->magnitude;
            &&& enforced_scene(scene, table, order).store.knows(name)
            &&& grapple == anchored(table[name], scene.store)
            &&& center.0 is Finite && center.1 is Finite
            &&& 0x10_0000_0000 * (p * p + q * q) <= (0x4_0000 * length + reach) * (0x4_0000 * length
                + reach)
            &&& grapple.distance(body.center()) is Finite && 0x4_0000 * length >= reach
                ==> 0x10_0000_0000 * (p * p + q * q) >= (0x4_0000 * length - reach) * (0x4_0000
                * length - reach)
        }),
{
    let grapple = anchored(table[name], scene.store);
    let body = scene.store.find(name)->0;
    lemma_taut_patch(scene.store, table, name);
    law_frame_corrects(scene, table, order, name);
    law_frame_keeps_shape(scene, table, order);
    lemma_taut_rope_stays(grapple, body.center());
    law_rigid_rope(grapple, body.center(), body.half(), reach);
}

/// What a taut rope does to the position of a body.
proof fn lemma_taut_patch(store: Store, table: Table, name: Seq<char>)
    requires
        store.knows(name),
        anchored(table[name], store).taut(store.find(name)->0.center()),
    ensures
        patch(store, table, name) is Some,
        patch(store, table, name)->0.index == store.index[name],
        patch(store, table, name)->0.position == difference(
            anchored(table[name], store).pulled(store.find(name)->0.center()),
            store.find(name)->0.half(),
        ),
{
}

/// A taut rope has no slack to take up.
proof fn lemma_taut_rope_stays(grapple: Grapple, position: (Float, Float))
    requires
        grapple.taut(position),
    ensures
        grapple.after(position) == grapple,
{
}

/// The order in which the grapples are gone through does not matter, where no two of them hold the
/// same body: all of them see the scene as the physics step left it.
pub proof fn law_order_does_not_matter(
    scene: Scene,
    table: Table,
    order: Seq<Seq<char>>,
    other: Seq<Seq<char>>,
)
    requires
        separate(scene.store, order),
        forall|name: Seq<char>| #[trigger] order.contains(name) <==> other.contains(name),
    ensures
        enforced_scene(scene, table, order) == enforced_scene(scene, table, other),
{
    lemma_separate(scene.store, table, order);
    lemma_any_order(
        scene.store.bodies,
        scene.offsets,
        order,
        other,
        patch_of(scene.store, table),
    );
}

/// Whether each body is drawn where it is.
pub open spec fn in_step(scene: Scene) -> bool {
    &&& scene.store.bodies.len() <= scene.offsets.len()
    &&& forall|place: int|
        0 <= place < scene.store.bodies.len() ==> (#[trigger] scene.store.bodies[place]).position
            == scene.offsets[place]
}

/// A frame keeps bodies and drawing in step.
pub proof fn law_drawing_keeps_step(scene: Scene, table: Table, order: Seq<Seq<char>>)
    requires
        in_step(scene),
    ensures
        in_step(enforced_scene(scene, table, order)),
{
    let changes = patches(order, patch_of(scene.store, table));
    lemma_step(scene.store.bodies, scene.offsets, changes);
    lemma_shape(scene.store.bodies, scene.offsets, changes);
}

proof fn lemma_step(list: Seq<Body>, offsets: Seq<(Float, Float)>, changes: Seq<Patch>)
    requires
        list.len() <= offsets.len(),
        forall|place: int|
            0 <= place < list.len() ==> (#[trigger] list[place]).position == offsets[place],
    ensures
        forall|place: int|
            0 <= place < list.len() ==> (#[trigger] moved(list, changes)[place]).position
                == redrawn(offsets, changes)[place],
    decreases changes.len(),
{
    if changes.len() > 0 {
        lemma_step(list, offsets, changes.drop_last());
        lemma_shape(list, offsets, changes.drop_last());
    }
}

/// A frame without a taut rope leaves the scene as it is; so does one without grapples.
pub proof fn law_idle_frame(scene: Scene, table: Table, order: Seq<Seq<char>>)
    requires
        forall|name: Seq<char>|
            #![trigger patch(scene.store, table, name)]
            order.contains(name) ==> patch(scene.store, table, name) is None,
    ensures
        enforced_scene(scene, table, order) == scene,
{
    let change_of = patch_of(scene.store, table);
    let changes = patches(order, change_of);
    lemma_patches(order, change_of);
    if changes.len() > 0 {
        let first = changes[0];
        let name = choose|name: Seq<char>|
            #![trigger change_of(name)]
            order.contains(name) && change_of(name) == Some(first);
        assert(change_of(name) == patch(scene.store, table, name));
    }
    assert(changes =~= Seq::<Patch>::empty());
}

/// A scene that draws each of its bodies is ready for any grapples.
pub proof fn law_drawable(scene: Scene, table: Table)
    requires
        scene.store.bodies.len() <= scene.offsets.len(),
    ensures
        drawable(scene, table),
{
    assert forall|name: Seq<char>| #[trigger] table.contains_key(name) implies (match patch(
        scene.store,
        table,
        name,
    ) {
        Some(change) => change.index < scene.offsets.len(),
        None => true,
    }) by {
        lemma_patch_place(scene.store, table, name);
    }
}

/// The change that a grapple makes to its body, from the correction that it gives.
proof fn lemma_patch_is_correction(store: Store, table: Table, name: Seq<char>, held: Grapple)
    requires
        held == (Grapple { anchor: held.anchor, ..table[name] }),
        held.anchor == (match table[name].anchor_object {
            Some(leader) => if store.index.contains_key(leader) && store.index[leader]
                < store.bodies.len() {
                let body = store.bodies[store.index[leader] as int];
                (
                    body.position.0.plus(body.size.0.times(Float::ratio(1, 2))),
                    body.position.1.plus(body.size.1.times(Float::ratio(1, 2))),
                )
            } else {
                table[name].anchor
            },
            None => table[name].anchor,
        }),
    ensures
        anchored(table[name], store) == held,
        !(store.index.contains_key(name) && store.index[name] < store.bodies.len()) ==> patch(
            store,
            table,
            name,
        ) is None,
        store.index.contains_key(name) && store.index[name] < store.bodies.len() ==> ({
            let body = store.bodies[store.index[name] as int];
            let half = (
                body.size.0.times(Float::ratio(1, 2)),
                body.size.1.times(Float::ratio(1, 2)),
            );
            let center = (body.position.0.plus(half.0), body.position.1.plus(half.1));
            let correction = held.correction(center, body.momentum);
            let spot = correction.position->0;
            &&& body.center() == center
            &&& correction.position is None ==> patch(store, table, name) is None
            &&& correction.position is Some && correction.velocity is Some ==> patch(
                store,
                table,
                name,
            ) == Some(
                Patch {
                    index: store.index[name] as int,
                    position: (
                        spot.0.minus(half.0),
                        spot.1.minus(half.1),
                    ),
                    velocity: correction.velocity->0,
                },
            )
        }),
{
}

/// One more name in the order, for changes given in any way.
proof fn lemma_one_more(
    list: Seq<Body>,
    offsets: Seq<(Float, Float)>,
    names: Seq<Seq<char>>,
    change_of: spec_fn(Seq<char>) -> Option<Patch>,
)
    requires
        names.len() > 0,
    ensures
        change_of(names.last()) is None ==> patches(names, change_of) == patches(
            names.drop_last(),
            change_of,
        ),
        change_of(names.last()) is Some ==> ({
            let change = change_of(names.last())->0;
            let before = moved(list, patches(names.drop_last(), change_of));
            let drawn = redrawn(offsets, patches(names.drop_last(), change_of));
            &&& before.len() == list.len()
            &&& drawn.len() == offsets.len()
            &&& 0 <= change.index < list.len() ==> before[change.index].size
                == list[change.index].size
            &&& moved(list, patches(names, change_of)) == (if 0 <= change.index < list.len() {
                before.update(
                    change.index,
                    Body {
                        position: change.position,
                        momentum: change.velocity,
                        ..before[change.index]
                    },
                )
            } else {
                before
            })
            &&& redrawn(offsets, patches(names, change_of)) == (if 0 <= change.index
                < offsets.len() {
                drawn.update(change.index, change.position)
            } else {
                drawn
            })
        }),
{
    let earlier = patches(names.drop_last(), change_of);
    lemma_shape(list, offsets, earlier);
    if change_of(names.last()) is Some {
        let change = change_of(names.last())->0;
        assert(earlier.push(change).drop_last() =~= earlier);
        assert(earlier.push(change).last() == change);
    }
}

/// A frame with one more grapple at the end of the order. The body of that grapple is moved so that
/// its middle comes to where the grapple corrects it to, and gets the velocity that the grapple
/// gives it, in the scene as the physics step left it; it is drawn where it is. Everything else is
/// as in the frame without that grapple. A grapple whose body is not there, or that corrects
/// nothing, changes nothing. `held` is the grapple with its anchor in the middle of the body that
/// it follows.
pub proof fn law_frame_by_one(scene: Scene, table: Table, order: Seq<Seq<char>>, held: Grapple)
    requires
        order.len() > 0,
        held == (Grapple { anchor: held.anchor, ..table[order.last()] }),
        held.anchor == (match table[order.last()].anchor_object {
            Some(leader) => if scene.store.index.contains_key(leader) && scene.store.index[leader]
                < scene.store.bodies.len() {
                let body = scene.store.bodies[scene.store.index[leader] as int];
                (
                    body.position.0.plus(body.size.0.times(Float::ratio(1, 2))),
                    body.position.1.plus(body.size.1.times(Float::ratio(1, 2))),
                )
            } else {
                table[order.last()].anchor
            },
            None => table[order.last()].anchor,
        }),
    ensures
        ({
            let name = order.last();
            let before = enforced_scene(scene, table, order.drop_last());
            let after = enforced_scene(scene, table, order);
            let known = scene.store.index.contains_key(name) && scene.store.index[name]
                < scene.store.bodies.len();
            let place = scene.store.index[name] as int;
            let body = scene.store.bodies[place];
            let half = (
                body.size.0.times(Float::ratio(1, 2)),
                body.size.1.times(Float::ratio(1, 2)),
            );
            let center = (body.position.0.plus(half.0), body.position.1.plus(half.1));
            let correction = held.correction(center, body.momentum);
            let spot = correction.position->0;
            &&& !known ==> after == before
            &&& known && correction.position is None ==> after == before
            &&& known && correction.position is Some && correction.velocity is Some ==> ({
                let corner = (
                    spot.0.minus(half.0),
                    spot.1.minus(half.1),
                );
                let moved_body = Body {
                    position: corner,
                    size: body.size,
                    momentum: correction.velocity->0,
                };
                &&& after.store.bodies == before.store.bodies.update(place, moved_body)
                &&& after.store.index == before.store.index
                &&& after.woken == before.woken
                &&& after.offsets == (if place < scene.offsets.len() {
                    before.offsets.update(place, corner)
                } else {
                    before.offsets
                })
            })
        }),
{
    let change_of = patch_of(scene.store, table);
    assert(change_of(order.last()) == patch(scene.store, table, order.last()));
    lemma_patch_is_correction(scene.store, table, order.last(), held);
    lemma_one_more(scene.store.bodies, scene.offsets, order, change_of);
}

/// A frame without grapples leaves the scene as it is.
pub proof fn law_frame_without_grapples(scene: Scene, table: Table)
    ensures
        enforced_scene(scene, table, Seq::empty()) == scene,
{
}

/// After a frame each body whose rope is beyond its length has the velocity that its grapple gives
/// it, and its middle where the grapple corrects it to, whatever the settings of the grapple are;
/// each body whose grapple corrects nothing is as the physics step left it. `held` is the grapple
/// with its anchor in the middle of the body that it follows.
pub proof fn law_frame_obeys_grapples(
    scene: Scene,
    table: Table,
    order: Seq<Seq<char>>,
    name: Seq<char>,
    held: Grapple,
)
    requires
        order.contains(name),
        scene.store.index.contains_key(name),
        scene.store.index[name] < scene.store.bodies.len(),
        forall|a: Seq<char>, b: Seq<char>|
            #![trigger order.contains(a), order.contains(b)]
            order.contains(a) && order.contains(b) && scene.store.index.contains_key(a)
                && scene.store.index.contains_key(b) && scene.store.index[a]
                == scene.store.index[b] ==> a == b,
        held == (Grapple { anchor: held.anchor, ..table[name] }),
        held.anchor == (match table[name].anchor_object {
            Some(leader) => if scene.store.index.contains_key(leader) && scene.store.index[leader]
                < scene.store.bodies.len() {
                let body = scene.store.bodies[scene.store.index[leader] as int];
                (
                    body.position.0.plus(body.size.0.times(Float::ratio(1, 2))),
                    body.position.1.plus(body.size.1.times(Float::ratio(1, 2))),
                )
            } else {
                table[name].anchor
            },
            None => table[name].anchor,
        }),
    ensures
        ({
            let after = enforced_scene(scene, table, order);
            let place = scene.store.index[name] as int;
            let body = scene.store.bodies[place];
            let half = (
                body.size.0.times(Float::ratio(1, 2)),
                body.size.1.times(Float::ratio(1, 2)),
            );
            let center = (body.position.0.plus(half.0), body.position.1.plus(half.1));
            let correction = held.correction(center, body.momentum);
            let spot = correction.position->0;
            let result = after.store.bodies[place];
            &&& correction.position is Some && correction.velocity is Some ==> {
                &&& result.momentum == correction.velocity->0
                &&& result.position.0 == spot.0.minus(half.0)
                &&& result.position.1 == spot.1.minus(half.1)
                &&& result.size == body.size
                &&& place < scene.offsets.len() ==> after.offsets[place] == result.position
            }
            &&& correction.position is None ==> {
                &&& result == body
                &&& place < scene.offsets.len() ==> after.offsets[place] == scene.offsets[place]
            }
        }),
{
    let store = scene.store;
    let place = store.index[name] as int;
    lemma_patch_is_correction(store, table, name, held);
    assert(separate(store, order));
    if patch(store, table, name) is Some {
        law_frame_corrects(scene, table, order, name);
    } else {
        assert forall|other: Seq<char>|
            #![trigger patch(store, table, other)]
            order.contains(other) && patch(store, table, other) is Some implies patch(
            store,
            table,
            other,
        )->0.index != place by {
            lemma_patch_place(store, table, other);
        }
        law_frame_spares_others(scene, table, order, place);
    }
}

/// After a frame each grapple is the one that it was, with its anchor in the middle of the body that
/// it follows and with its slack taken up where it does that; nobody gains or loses one.
pub proof fn law_frame_keeps_grapples(
    store: Store,
    table: Table,
    name: Seq<char>,
    held: Grapple,
)
    requires
        table.contains_key(name),
        held == (Grapple { anchor: held.anchor, ..table[name] }),
        held.anchor == (match table[name].anchor_object {
            Some(leader) => if store.index.contains_key(leader) && store.index[leader]
                < store.bodies.len() {
                let body = store.bodies[store.index[leader] as int];
                (
                    body.position.0.plus(body.size.0.times(Float::ratio(1, 2))),
                    body.position.1.plus(body.size.1.times(Float::ratio(1, 2))),
                )
            } else {
                table[name].anchor
            },
            None => table[name].anchor,
        }),
    ensures
        ({
            let after = enforced_table(store, table);
            &&& after.dom() =~= table.dom()
            &&& store.index.contains_key(name) && store.index[name] < store.bodies.len()
                ==> after[name] == held.after(
                (
                    store.bodies[store.index[name] as int].position.0.plus(
                        store.bodies[store.index[name] as int].size.0.times(Float::ratio(1, 2)),
                    ),
                    store.bodies[store.index[name] as int].position.1.plus(
                        store.bodies[store.index[name] as int].size.1.times(Float::ratio(1, 2)),
                    ),
                ),
            )
            &&& !(store.index.contains_key(name) && store.index[name] < store.bodies.len())
                ==> after[name] == held
        }),
{
    lemma_patch_is_correction(store, table, name, held);
}

/// A scene can be drawn after a frame just where each grapple that corrects its body finds a place
/// for it among the drawn ones.
pub proof fn law_drawable_exactly(scene: Scene, table: Table)
    ensures
        drawable(scene, table) <==> forall|name: Seq<char>| #[trigger]
            table.contains_key(name) && scene.store.index.contains_key(name)
                && scene.store.index[name] < scene.store.bodies.len() && scene.store.index[name]
                >= scene.offsets.len() ==> anchored(table[name], scene.store).correction(
                scene.store.bodies[scene.store.index[name] as int].center(),
                scene.store.bodies[scene.store.index[name] as int].momentum,
            ).position is None,
{
    let store = scene.store;
    assert forall|name: Seq<char>| #[trigger] table.contains_key(name) implies (match patch(
        store,
        table,
        name,
    ) {
        Some(change) => change.index < scene.offsets.len(),
        None => true,
    }) == (store.index.contains_key(name) && store.index[name] < store.bodies.len()
        && store.index[name] >= scene.offsets.len() ==> anchored(table[name], store).correction(
        store.bodies[store.index[name] as int].center(),
        store.bodies[store.index[name] as int].momentum,
    ).position is None) by {
        lemma_patch_is_correction(store, table, name, anchored(table[name], store));
        if store.knows(name) {
            let body = store.bodies[store.index[name] as int];
            law_correction_is_whole(anchored(table[name], store), body.center(), body.momentum);
        }
    }
}

/// Attaching gives each named body the grapple of the command, with its anchor in the middle of the
/// body that it follows, where the scene knows that one. It wakes the named bodies, in their order.
pub proof fn law_attach(
    table: Table,
    target: Target,
    grapple: GrappleConstraint,
    scene: Scene,
    i: int,
)
    requires
        0 <= i < target.names@.len(),
    ensures
        ({
            let command = GrappleCommand::Attach { target, grapple };
            let store = scene.store;
            let name = target.names@[i]@;
            let after = commanded(table, command, store);
            let woken = woken_by(scene, command);
            &&& after.contains_key(name)
            &&& after[name] == (Grapple { anchor: after[name].anchor, ..grapple@ })
            &&& after[name].anchor == (match grapple@.anchor_object {
                Some(leader) => if store.index.contains_key(leader) && store.index[leader]
                    < store.bodies.len() {
                    let body = store.bodies[store.index[leader] as int];
                    (
                        body.position.0.plus(body.size.0.times(Float::ratio(1, 2))),
                        body.position.1.plus(body.size.1.times(Float::ratio(1, 2))),
                    )
                } else {
                    grapple@.anchor
                },
                None => grapple@.anchor,
            })
            &&& woken.store == scene.store
            &&& woken.offsets == scene.offsets
            &&& woken.woken.len() == scene.woken.len() + target.names@.len()
            &&& woken.woken.take(scene.woken.len() as int) == scene.woken
            &&& woken.woken[scene.woken.len() + i] == name
        }),
{
    let command = GrappleCommand::Attach { target, grapple };
    assert(command.names()[i] == target.names@[i]@);
    assert(command.names().contains(target.names@[i]@));
    assert((scene.woken + command.names()).take(scene.woken.len() as int) =~= scene.woken);
}

/// Releasing takes the grapple from each named body.
pub proof fn law_release(table: Table, target: Target, store: Store, i: int)
    requires
        0 <= i < target.names@.len(),
    ensures
        !commanded(table, GrappleCommand::Release { target }, store).contains_key(
            target.names@[i]@,
        ),
{
    let command = GrappleCommand::Release { target };
    assert(command.names()[i] == target.names@[i]@);
    assert(command.names().contains(target.names@[i]@));
}

/// Setting the length gives each named grapple that length, but at least 1, and changes nothing else
/// of it.
pub proof fn law_set_length(table: Table, target: Target, value: F32, store: Store, i: int)
    requires
        0 <= i < target.names@.len(),
        table.contains_key(target.names@[i]@),
    ensures
        ({
            let name = target.names@[i]@;
            let after = commanded(table, GrappleCommand::SetLength { target, value }, store);
            let least = Float::Finite { negative: false, magnitude: pow2(149) };
            &&& after.contains_key(name)
            &&& after[name] == (Grapple { length: after[name].length, ..table[name] })
            &&& least.le(value@) ==> after[name].length == value@
            &&& !least.le(value@) ==> after[name].length == least
        }),
{
    let command = GrappleCommand::SetLength { target, value };
    assert(command.names()[i] == target.names@[i]@);
    assert(command.names().contains(target.names@[i]@));
    lemma_one();
}

/// Setting the stiffness gives each named grapple that stiffness, brought into the range from 0 to
/// 1, and changes nothing else of it.
pub proof fn law_set_stiffness(table: Table, target: Target, value: F32, store: Store, i: int)
    requires
        0 <= i < target.names@.len(),
        table.contains_key(target.names@[i]@),
    ensures
        ({
            let name = target.names@[i]@;
            let after = commanded(table, GrappleCommand::SetStiffness { target, value }, store);
            let least = Float::Finite { negative: false, magnitude: 0 };
            let most = Float::Finite { negative: false, magnitude: pow2(149) };
            &&& after.contains_key(name)
            &&& after[name] == (Grapple { stiffness: after[name].stiffness, ..table[name] })
            &&& value@.lt(least) ==> after[name].stiffness == least
            &&& most.lt(value@) ==> after[name].stiffness == most
            &&& !value@.lt(least) && !most.lt(value@) ==> after[name].stiffness == value@
        }),
{
    let command = GrappleCommand::SetStiffness { target, value };
    assert(command.names()[i] == target.names@[i]@);
    assert(command.names().contains(target.names@[i]@));
    lemma_one();
}

/// Setting the damping gives each named grapple that damping, brought into the range from 0 to 1,
/// and changes nothing else of it.
pub proof fn law_set_damping(table: Table, target: Target, value: F32, store: Store, i: int)
    requires
        0 <= i < target.names@.len(),
        table.contains_key(target.names@[i]@),
    ensures
        ({
            let name = target.names@[i]@;
            let after = commanded(table, GrappleCommand::SetDamping { target, value }, store);
            let least = Float::Finite { negative: false, magnitude: 0 };
            let most = Float::Finite { negative: false, magnitude: pow2(149) };
            &&& after.contains_key(name)
            &&& after[name] == (Grapple { damping: after[name].damping, ..table[name] })
            &&& value@.lt(least) ==> after[name].damping == least
            &&& most.lt(value@) ==> after[name].damping == most
            &&& !value@.lt(least) && !most.lt(value@) ==> after[name].damping == value@
        }),
{
    let command = GrappleCommand::SetDamping { target, value };
    assert(command.names()[i] == target.names@[i]@);
    assert(command.names().contains(target.names@[i]@));
    lemma_one();
}

/// Setting the anchor to a point brings it there, lets the grapple follow nobody, and changes
/// nothing else of it.
pub proof fn law_set_anchor(table: Table, target: Target, x: F32, y: F32, store: Store, i: int)
    requires
        0 <= i < target.names@.len(),
        table.contains_key(target.names@[i]@),
    ensures
        ({
            let name = target.names@[i]@;
            let after = commanded(table, GrappleCommand::SetAnchor { target, x, y }, store);
            &&& after.contains_key(name)
            &&& after[name].anchor.0 == x@
            &&& after[name].anchor.1 == y@
            &&& after[name].anchor_object is None
            &&& table[name] == (Grapple {
                anchor: table[name].anchor,
                anchor_object: table[name].anchor_object,
                ..after[name]
            })
        }),
{
    let command = GrappleCommand::SetAnchor { target, x, y };
    assert(command.names()[i] == target.names@[i]@);
    assert(command.names().contains(target.names@[i]@));
}

/// Setting the body to follow changes nothing else of a grapple, and leaves the anchor where it is
/// until the next frame.
pub proof fn law_set_anchor_object(
    table: Table,
    target: Target,
    anchor_object: String,
    store: Store,
    i: int,
)
    requires
        0 <= i < target.names@.len(),
        table.contains_key(target.names@[i]@),
    ensures
        ({
            let name = target.names@[i]@;
            let command = GrappleCommand::SetAnchorObject { target, anchor_object };
            let after = commanded(table, command, store);
            &&& after.contains_key(name)
            &&& after[name].anchor_object == Some(anchor_object@)
            &&& table[name] == (Grapple {
                anchor_object: table[name].anchor_object,
                ..after[name]
            })
        }),
{
    let command = GrappleCommand::SetAnchorObject { target, anchor_object };
    assert(command.names()[i] == target.names@[i]@);
    assert(command.names().contains(target.names@[i]@));
}

/// Setting the swing bias gives each named grapple that bias, and changes nothing else of it.
pub proof fn law_set_swing_bias(
    table: Table,
    target: Target,
    bias: SwingBias,
    store: Store,
    i: int,
)
    requires
        0 <= i < target.names@.len(),
        table.contains_key(target.names@[i]@),
    ensures
        ({
            let name = target.names@[i]@;
            let after = commanded(table, GrappleCommand::SetSwingBias { target, bias }, store);
            &&& after.contains_key(name)
            &&& after[name].swing_bias == bias
            &&& table[name] == (Grapple { swing_bias: table[name].swing_bias, ..after[name] })
        }),
{
    let command = GrappleCommand::SetSwingBias { target, bias };
    assert(command.names()[i] == target.names@[i]@);
    assert(command.names().contains(target.names@[i]@));
}

/// A command concerns those alone that its target names: the grapple of anyone else stays, and who
/// has none gets none. A command that attaches nothing leaves the scene as it is.
pub proof fn law_command_is_for_its_target(
    table: Table,
    command: GrappleCommand,
    target: Target,
    scene: Scene,
    name: Seq<char>,
)
    requires
        target == (match command {
            GrappleCommand::Attach { target, .. } => target,
            GrappleCommand::Release { target } => target,
            GrappleCommand::SetLength { target, .. } => target,
            GrappleCommand::SetStiffness { target, .. } => target,
            GrappleCommand::SetDamping { target, .. } => target,
            GrappleCommand::SetAnchor { target, .. } => target,
            GrappleCommand::SetAnchorObject { target, .. } => target,
            GrappleCommand::SetSwingBias { target, .. } => target,
        }),
    ensures
        (forall|i: int| 0 <= i < target.names@.len() ==> #[trigger] target.names@[i]@ != name) ==> {
            let after = commanded(table, command, scene.store);
            &&& after.contains_key(name) == table.contains_key(name)
            &&& table.contains_key(name) ==> after[name] == table[name]
        },
        command !is Attach && command !is Release && !table.contains_key(name) ==> !commanded(
            table,
            command,
            scene.store,
        ).contains_key(name),
        command !is Attach ==> woken_by(scene, command) == scene,
{
    if forall|i: int| 0 <= i < target.names@.len() ==> #[trigger] target.names@[i]@ != name {
        assert(!command.names().contains(name)) by {
            if command.names().contains(name) {
                let i = command.names().index_of(name);
                assert(target.names@[i]@ == name);
            }
        }
    }
}

/// What the plugin, the scene and its bodies stand for: every field counts as it is.
pub proof fn law_views(
    plugin: GrapplePlugin,
    canvas: Canvas,
    object: GameObject,
    grapple: GrappleConstraint,
    name: Seq<char>,
    i: int,
)
    ensures
        plugin@.contains_key(name) == plugin.grapple_constraints@.contains_key(name),
        plugin@.contains_key(name) ==> plugin@[name] == plugin.grapple_constraints@[name]@,
        object@.position == (object.position.0@, object.position.1@),
        object@.size == (object.size.0@, object.size.1@),
        object@.momentum == (object.momentum.0@, object.momentum.1@),
        canvas@.store.index == canvas.store.name_to_index@,
        canvas@.store.bodies.len() == canvas.store.objects@.len(),
        0 <= i < canvas.store.objects@.len() ==> canvas@.store.bodies[i]
            == canvas.store.objects@[i]@,
        canvas@.offsets.len() == canvas.layout.offsets@.len(),
        0 <= i < canvas.layout.offsets@.len() ==> canvas@.offsets[i] == (
            canvas.layout.offsets@[i].0@,
            canvas.layout.offsets@[i].1@,
        ),
        canvas@.woken.len() == canvas.woken@.len(),
        0 <= i < canvas.woken@.len() ==> canvas@.woken[i] == canvas.woken@[i]@,
        grapple@.anchor == (grapple.anchor.0@, grapple.anchor.1@),
        grapple@.anchor_object is Some == grapple.anchor_object is Some,
        grapple.anchor_object is Some ==> grapple@.anchor_object->0 == grapple.anchor_object->0@,
        grapple@.length == grapple.length@,
        grapple@.stiffness == grapple.stiffness@,
        grapple@.damping == grapple.damping@,
        grapple@.max_swing_speed == grapple.max_swing_speed@,
        grapple@.auto_shorten == grapple.auto_shorten,
        grapple@.swing_bias == grapple.swing_bias,
        grapple@.active == grapple.active,
{
}

/// The middle of a body lies half its extent from its corner, and a name leads to the body at its
/// place, where there is one at that place.
pub proof fn law_bodies(store: Store, body: Body, name: Seq<char>)
    ensures
        body.half() == (
            body.size.0.times(Float::ratio(1, 2)),
            body.size.1.times(Float::ratio(1, 2)),
        ),
        body.center() == (
            body.position.0.plus(body.size.0.times(Float::ratio(1, 2))),
            body.position.1.plus(body.size.1.times(Float::ratio(1, 2))),
        ),
        store.knows(name) <==> store.index.contains_key(name) && store.index[name]
            < store.bodies.len(),
        store.find(name) is Some <==> store.knows(name),
        store.find(name) is Some ==> store.find(name)->0 == store.bodies[store.index[name] as int],
{
}

/// Half of an extent is half of it, rounded by half a unit at most, and so exact where the count of
/// its units is even.
pub proof fn law_half_is_half(body: Body)
    requires
        body.size.0 is Finite,
        body.size.0.valid(),
        body.size.1 is Finite,
        body.size.1.valid(),
    ensures
        body.half().0 is Finite && body.half().1 is Finite,
        -1 <= 2 * body.half().0.units() - body.size.0.units() <= 1,
        -1 <= 2 * body.half().1.units() - body.size.1.units() <= 1,
{
    lemma_half(body.size.0);
    lemma_half(body.size.1);
}

} // verus!
