//! The table of grapples of a scene: commands that change it, and its effect on the bodies after
//! each step of the physics.

use crate::float::Float;
use crate::grapple::{one, unit_clamp, Grapple, GrappleConstraint, SwingBias};
use crate::names::{texts, NameMap};
use crate::plane::{difference, difference_of};
use crate::scalar::F32;
use crate::scene::{Body, Canvas, Scene, Store, Target};
use vstd::prelude::*;

verus! {

/// Commands to the grapple plugin.
#[derive(Clone, Debug)]
pub enum GrappleCommand {
    /// Attach a grapple constraint to a target object.
    Attach { target: Target, grapple: GrappleConstraint },
    /// Release (remove) the grapple from a target object.
    Release { target: Target },
    /// Set the rope length of an active grapple.
    SetLength { target: Target, value: F32 },
    /// Set the stiffness of an active grapple (0 to 1).
    SetStiffness { target: Target, value: F32 },
    /// Set the damping of an active grapple (0 to 1).
    SetDamping { target: Target, value: F32 },
    /// Move the anchor of an active grapple to a new world position.
    SetAnchor { target: Target, x: F32, y: F32 },
    /// Re-target the grapple anchor to follow a named object.
    SetAnchorObject { target: Target, anchor_object: String },
    /// Set the swing bias of an active grapple.
    SetSwingBias { target: Target, bias: SwingBias },
}

impl GrappleCommand {
    /// The bodies that the command is for.
    pub open spec fn target(self) -> Target {
        match self {
            GrappleCommand::Attach { target, .. } => target,
            GrappleCommand::Release { target } => target,
            GrappleCommand::SetLength { target, .. } => target,
            GrappleCommand::SetStiffness { target, .. } => target,
            GrappleCommand::SetDamping { target, .. } => target,
            GrappleCommand::SetAnchor { target, .. } => target,
            GrappleCommand::SetAnchorObject { target, .. } => target,
            GrappleCommand::SetSwingBias { target, .. } => target,
        }
    }

    /// The names of the bodies that the command is for.
    pub open spec fn names(self) -> Seq<Seq<char>> {
        texts(self.target().names@)
    }

    /// What the command makes of a grapple that a named body has already. Attaching and releasing
    /// do not look at it.
    pub open spec fn edited(self, grapple: Grapple) -> Grapple {
        match self {
            GrappleCommand::SetLength { value, .. } => Grapple {
                length: value@.max(one()),
                ..grapple
            },
            GrappleCommand::SetStiffness { value, .. } => Grapple {
                stiffness: unit_clamp(value@),
                ..grapple
            },
            GrappleCommand::SetDamping { value, .. } => Grapple {
                damping: unit_clamp(value@),
                ..grapple
            },
            GrappleCommand::SetAnchor { x, y, .. } => Grapple {
                anchor: (x@, y@),
                anchor_object: None,
                ..grapple
            },
            GrappleCommand::SetAnchorObject { anchor_object, .. } => Grapple {
                anchor_object: Some(anchor_object@),
                ..grapple
            },
            GrappleCommand::SetSwingBias { bias, .. } => Grapple { swing_bias: bias, ..grapple },
            _ => grapple,
        }
    }

    /// Changes a grapple as the command says.
    fn edit(&self, grapple: &mut GrappleConstraint)
        ensures
            final(grapple)@ == self.edited(old(grapple)@),
    {
        match self {
            GrappleCommand::SetLength { value, .. } => {
                grapple.length = value.max(F32::ratio(1, 1));
            },
            GrappleCommand::SetStiffness { value, .. } => {
                grapple.stiffness = value.clamp(F32::zero(), F32::ratio(1, 1));
            },
            GrappleCommand::SetDamping { value, .. } => {
                grapple.damping = value.clamp(F32::zero(), F32::ratio(1, 1));
            },
            GrappleCommand::SetAnchor { x, y, .. } => {
                grapple.anchor = (*x, *y);
                grapple.anchor_object = None;
            },
            GrappleCommand::SetAnchorObject { anchor_object, .. } => {
                grapple.anchor_object = Some(anchor_object.clone());
            },
            GrappleCommand::SetSwingBias { bias, .. } => {
                grapple.swing_bias = *bias;
            },
            _ => {},
        }
    }
}

/// The grapples of a scene, by the names of the bodies that hang on them.
pub type Table = Map<Seq<char>, Grapple>;

/// A table with the same grapple for each of some names.
pub open spec fn attached(table: Table, names: Seq<Seq<char>>, grapple: Grapple) -> Table {
    Map::new(
        |name: Seq<char>| table.contains_key(name) || names.contains(name),
        |name: Seq<char>|
            if names.contains(name) {
                grapple
            } else {
                table[name]
            },
    )
}

/// A table without some names.
pub open spec fn released(table: Table, names: Seq<Seq<char>>) -> Table {
    Map::new(
        |name: Seq<char>| table.contains_key(name) && !names.contains(name),
        |name: Seq<char>| table[name],
    )
}

/// A table in which a command has changed the grapples of some names, where they have one.
pub open spec fn edited(table: Table, names: Seq<Seq<char>>, command: GrappleCommand) -> Table {
    Map::new(
        |name: Seq<char>| table.contains_key(name),
        |name: Seq<char>|
            if names.contains(name) {
                command.edited(table[name])
            } else {
                table[name]
            },
    )
}

/// A grapple whose anchor has moved to the middle of the body that it follows, where it follows
/// one that the scene knows.
pub open spec fn anchored(grapple: Grapple, store: Store) -> Grapple {
    match grapple.anchor_object {
        Some(name) => match store.find(name) {
            Some(body) => Grapple { anchor: body.center(), ..grapple },
            None => grapple,
        },
        None => grapple,
    }
}

/// The table after a command.
pub open spec fn commanded(table: Table, command: GrappleCommand, store: Store) -> Table {
    match command {
        GrappleCommand::Attach { grapple, .. } => attached(
            table,
            command.names(),
            anchored(grapple@, store),
        ),
        GrappleCommand::Release { .. } => released(table, command.names()),
        _ => edited(table, command.names(), command),
    }
}

/// The scene after a command: who is given a grapple is woken.
pub open spec fn woken_by(scene: Scene, command: GrappleCommand) -> Scene {
    match command {
        GrappleCommand::Attach { .. } => Scene { woken: scene.woken + command.names(), ..scene },
        _ => scene,
    }
}

/// A change to the body at a place: it is moved, and gets a velocity.
pub struct Patch {
    pub index: int,
    pub position: (Float, Float),
    pub velocity: (Float, Float),
}

/// What the grapple of a named body does to it: the body moves so that its middle comes to where
/// the grapple pulls it. There is no change where the scene does not know the body or the grapple
/// does not correct it.
pub open spec fn patch(store: Store, table: Table, name: Seq<char>) -> Option<Patch> {
    match store.find(name) {
        Some(body) => {
            let correction = anchored(table[name], store).correction(body.center(), body.momentum);
            match (correction.position, correction.velocity) {
                (Some(center), Some(velocity)) => Some(
                    Patch {
                        index: store.index[name] as int,
                        position: difference(center, body.half()),
                        velocity,
                    },
                ),
                _ => None,
            }
        },
        None => None,
    }
}

/// For each name what its grapple does to the body.
pub open spec fn patch_of(store: Store, table: Table) -> spec_fn(Seq<char>) -> Option<Patch> {
    |name: Seq<char>| patch(store, table, name)
}

/// The changes that some names give, in the order of the names.
pub open spec fn patches(
    names: Seq<Seq<char>>,
    change_of: spec_fn(Seq<char>) -> Option<Patch>,
) -> Seq<Patch>
    decreases names.len(),
{
    if names.len() == 0 {
        Seq::empty()
    } else {
        let earlier = patches(names.drop_last(), change_of);
        match change_of(names.last()) {
            Some(last) => earlier.push(last),
            None => earlier,
        }
    }
}

/// The bodies after some changes, one after the other.
pub open spec fn moved(list: Seq<Body>, changes: Seq<Patch>) -> Seq<Body>
    decreases changes.len(),
{
    if changes.len() == 0 {
        list
    } else {
        let earlier = moved(list, changes.drop_last());
        let change = changes.last();
        if 0 <= change.index < earlier.len() {
            earlier.update(
                change.index,
                Body {
                    position: change.position,
                    momentum: change.velocity,
                    ..earlier[change.index]
                },
            )
        } else {
            earlier
        }
    }
}

/// The places where bodies are drawn after some changes, one after the other.
pub open spec fn redrawn(offsets: Seq<(Float, Float)>, changes: Seq<Patch>) -> Seq<(Float, Float)>
    decreases changes.len(),
{
    if changes.len() == 0 {
        offsets
    } else {
        let earlier = redrawn(offsets, changes.drop_last());
        let change = changes.last();
        if 0 <= change.index < earlier.len() {
            earlier.update(change.index, change.position)
        } else {
            earlier
        }
    }
}

/// The grapple of a named body after a frame: its anchor follows, and its slack is taken up where
/// it does that.
pub open spec fn followed(store: Store, table: Table, name: Seq<char>) -> Grapple {
    let grapple = anchored(table[name], store);
    match store.find(name) {
        Some(body) => grapple.after(body.center()),
        None => grapple,
    }
}

/// The table after a frame.
pub open spec fn enforced_table(store: Store, table: Table) -> Table {
    Map::new(
        |name: Seq<char>| table.contains_key(name),
        |name: Seq<char>| followed(store, table, name),
    )
}

/// The scene after a frame in which the grapples were gone through in some order.
pub open spec fn enforced_scene(scene: Scene, table: Table, order: Seq<Seq<char>>) -> Scene {
    let changes = patches(order, patch_of(scene.store, table));
    Scene {
        store: Store { bodies: moved(scene.store.bodies, changes), ..scene.store },
        offsets: redrawn(scene.offsets, changes),
        ..scene
    }
}

/// Whether each body that the grapples move has a place where it is drawn.
pub open spec fn drawable(scene: Scene, table: Table) -> bool {
    forall|name: Seq<char>| #[trigger]
        table.contains_key(name) ==> match patch(scene.store, table, name) {
            Some(change) => change.index < scene.offsets.len(),
            None => true,
        }
}

/// Whether the body of a name has a place where it is drawn, if its grapple moves it.
#[verifier::opaque]
spec fn drawn(scene: Scene, table: Table, name: Seq<char>) -> bool {
    match patch(scene.store, table, name) {
        Some(change) => change.index < scene.offsets.len(),
        None => true,
    }
}

/// A change that is still to be made to the body at a place.
struct PendingPatch {
    index: usize,
    position: (F32, F32),
    velocity: (F32, F32),
}

impl View for PendingPatch {
    type V = Patch;

    closed spec fn view(&self) -> Patch {
        Patch { index: self.index as int, position: self.position@, velocity: self.velocity@ }
    }
}

/// Plugin that manages grapple constraints for the engine.
///
/// Stores all grapple state internally and enforces constraints after the physics step.
#[derive(Debug)]
pub struct GrapplePlugin {
    /// Per-object grapple constraints, by the name of the object.
    pub grapple_constraints: NameMap<GrappleConstraint>,
}

impl View for GrapplePlugin {
    type V = Table;

    open spec fn view(&self) -> Table {
        Map::new(
            |name: Seq<char>| self.grapple_constraints@.contains_key(name),
            |name: Seq<char>| self.grapple_constraints@[name]@,
        )
    }
}

impl Default for GrapplePlugin {
    fn default() -> (result: Self)
        ensures
            result.wf(),
            result@ == Map::<Seq<char>, Grapple>::empty(),
    {
        Self::new()
    }
}

impl GrapplePlugin {
    /// Whether each name has one grapple.
    pub open spec fn wf(&self) -> bool {
        self.grapple_constraints.wf()
    }

    /// The names in the order in which the plugin goes through them.
    pub open spec fn order(&self) -> Seq<Seq<char>> {
        self.grapple_constraints.order()
    }

    /// The plugin goes through each name that has a grapple, once.
    pub proof fn lemma_order(&self)
        requires
            self.wf(),
        ensures
            self.order().no_duplicates(),
            forall|name: Seq<char>| #[trigger]
                self@.contains_key(name) <==> self.order().contains(name),
    {
        self.grapple_constraints.lemma_order();
    }

    /// A plugin without grapples.
    pub fn new() -> (result: Self)
        ensures
            result.wf(),
            result@ == Map::<Seq<char>, Grapple>::empty(),
    {
        let result = GrapplePlugin { grapple_constraints: NameMap::new() };
        assert(result@ =~= Map::<Seq<char>, Grapple>::empty());
        result
    }

    /// The name under which the plugin is called.
    pub fn name(&self) -> (result: &str)
        ensures
            result@ == "grapple"@,
    {
        "grapple"
    }

    /// Attach a grapple constraint to a named game object.
    fn attach_grapple_impl(
        &mut self,
        canvas: &mut Canvas,
        name: &String,
        grapple: GrappleConstraint,
    )
        requires
            old(self).wf(),
            old(canvas).wf(),
        ensures
            final(self).wf(),
            final(canvas).wf(),
            final(self)@ == old(self)@.insert(name@, anchored(grapple@, old(canvas)@.store)),
            final(canvas)@ == (Scene { woken: old(canvas)@.woken.push(name@), ..old(canvas)@ }),
    {
        let mut grapple = grapple;
        if let Some(anchor) = point_to_follow(&grapple, canvas) {
            grapple.anchor = anchor;
        }
        self.grapple_constraints.insert(name, grapple);
        assert(self@ =~= old(self)@.insert(name@, anchored(grapple@, old(canvas)@.store)));
        canvas.wake_body(name);
    }

    /// Handles a command; `None` stands for a payload that is no grapple command. The result says
    /// whether the plugin took the payload.
    pub fn on_call(&mut self, canvas: &mut Canvas, payload: Option<&GrappleCommand>) -> (result:
        bool)
        requires
            old(self).wf(),
            old(canvas).wf(),
        ensures
            final(self).wf(),
            final(canvas).wf(),
            result == (payload is Some),
            match payload {
                Some(command) => {
                    &&& final(self)@ == commanded(old(self)@, *command, old(canvas)@.store)
                    &&& final(canvas)@ == woken_by(old(canvas)@, *command)
                },
                None => {
                    &&& *final(self) == *old(self)
                    &&& *final(canvas) == *old(canvas)
                },
            },
    {
        match payload {
            Some(command) => {
                match command {
                    GrappleCommand::Attach { target, grapple } => self.attach_all(
                        canvas,
                        &target.names,
                        grapple,
                    ),
                    GrappleCommand::Release { target } => self.release_all(&target.names),
                    GrappleCommand::SetLength { target, .. } => self.edit_all(
                        &target.names,
                        command,
                    ),
                    GrappleCommand::SetStiffness { target, .. } => self.edit_all(
                        &target.names,
                        command,
                    ),
                    GrappleCommand::SetDamping { target, .. } => self.edit_all(
                        &target.names,
                        command,
                    ),
                    GrappleCommand::SetAnchor { target, .. } => self.edit_all(
                        &target.names,
                        command,
                    ),
                    GrappleCommand::SetAnchorObject { target, .. } => self.edit_all(
                        &target.names,
                        command,
                    ),
                    GrappleCommand::SetSwingBias { target, .. } => self.edit_all(
                        &target.names,
                        command,
                    ),
                }
                true
            },
            None => false,
        }
    }

    fn attach_all(&mut self, canvas: &mut Canvas, names: &Vec<String>, grapple: &GrappleConstraint)
        requires
            old(self).wf(),
            old(canvas).wf(),
        ensures
            final(self).wf(),
            final(canvas).wf(),
            final(self)@ == attached(
                old(self)@,
                texts(names@),
                anchored(grapple@, old(canvas)@.store),
            ),
            final(canvas)@ == (Scene {
                woken: old(canvas)@.woken + texts(names@),
                ..old(canvas)@
            }),
    {
        let ghost list = texts(names@);
        let ghost fixed = anchored(grapple@, old(canvas)@.store);
        let mut index: usize = 0;
        proof {
            assert(self@ =~= attached(old(self)@, list.take(0), fixed));
            assert(canvas@.woken =~= old(canvas)@.woken + list.take(0));
        }
        while index < names.len()
            invariant
                index <= names@.len(),
                list == texts(names@),
                fixed == anchored(grapple@, old(canvas)@.store),
                self.wf(),
                canvas.wf(),
                self@ == attached(old(self)@, list.take(index as int), fixed),
                canvas@ == (Scene {
                    woken: old(canvas)@.woken + list.take(index as int),
                    ..old(canvas)@
                }),
            decreases names@.len() - index,
        {
            self.attach_grapple_impl(canvas, &names[index], grapple.clone());
            proof {
                lemma_take_contains(list, index as int);
                assert(canvas@.woken =~= old(canvas)@.woken + list.take(index + 1));
                assert(self@ =~= attached(old(self)@, list.take(index + 1), fixed));
            }
            index = index + 1;
        }
        assert(list.take(index as int) =~= list);
    }

    fn release_all(&mut self, names: &Vec<String>)
        requires
            old(self).wf(),
        ensures
            final(self).wf(),
            final(self)@ == released(old(self)@, texts(names@)),
    {
        let ghost list = texts(names@);
        let mut index: usize = 0;
        assert(self@ =~= released(old(self)@, list.take(0)));
        while index < names.len()
            invariant
                index <= names@.len(),
                list == texts(names@),
                self.wf(),
                self@ == released(old(self)@, list.take(index as int)),
            decreases names@.len() - index,
        {
            let ghost before = self@;
            self.grapple_constraints.remove(&names[index]);
            proof {
                lemma_take_contains(list, index as int);
                assert(self@ =~= before.remove(list[index as int]));
                assert(self@ =~= released(old(self)@, list.take(index + 1)));
            }
            index = index + 1;
        }
        assert(list.take(index as int) =~= list);
    }

    fn edit_all(&mut self, names: &Vec<String>, command: &GrappleCommand)
        requires
            old(self).wf(),
        ensures
            final(self).wf(),
            final(self)@ == edited(old(self)@, texts(names@), *command),
    {
        let ghost list = texts(names@);
        let mut index: usize = 0;
        assert(self@ =~= edited(old(self)@, list.take(0), *command));
        while index < names.len()
            invariant
                index <= names@.len(),
                list == texts(names@),
                self.wf(),
                self@ == edited(old(self)@, list.take(index as int), *command),
            decreases names@.len() - index,
        {
            let ghost before = self@;
            let name = &names[index];
            if let Some(grapple) = self.grapple_constraints.get_mut(name) {
                command.edit(grapple);
            }
            proof {
                lemma_take_contains(list, index as int);
                assert(self@ =~= (if before.contains_key(name@) {
                    before.insert(name@, command.edited(before[name@]))
                } else {
                    before
                }));
                assert(self@ =~= edited(old(self)@, list.take(index + 1), *command));
            }
            index = index + 1;
        }
        assert(list.take(index as int) =~= list);
    }
}

impl GrapplePlugin {
    /// Enforce all active grapple constraints after the physics step.
    pub fn on_post_solve(&mut self, canvas: &mut Canvas, _dt: F32)
        requires
            old(self).wf(),
            old(canvas).wf(),
            drawable(old(canvas)@, old(self)@),
        ensures
            final(self).wf(),
            final(canvas).wf(),
            final(self).order() == old(self).order(),
            final(self)@ == enforced_table(old(canvas)@.store, old(self)@),
            final(canvas)@ == enforced_scene(old(canvas)@, old(self)@, old(self).order()),
    {
        self.enforce_grapple_constraints(canvas);
    }

    /// Enforce grapple constraints by applying position/velocity corrections directly to the
    /// store, over what the physics step left there.
    fn enforce_grapple_constraints(&mut self, canvas: &mut Canvas)
        requires
            old(self).wf(),
            old(canvas).wf(),
            drawable(old(canvas)@, old(self)@),
        ensures
            final(self).wf(),
            final(canvas).wf(),
            final(self).order() == old(self).order(),
            final(self)@ == enforced_table(old(canvas)@.store, old(self)@),
            final(canvas)@ == enforced_scene(old(canvas)@, old(self)@, old(self).order()),
    {
        proof {
            self.grapple_constraints.lemma_order();
        }
        if self.grapple_constraints.len() == 0 {
            proof {
                assert(self@ =~= enforced_table(canvas@.store, self@)) by {
                    assert forall|name: Seq<char>| !self@.contains_key(name) by {
                        assert(!self.order().contains(name));
                    }
                }
                assert(canvas@ =~= enforced_scene(canvas@, self@, self.order()));
            }
            return;
        }
        self.follow_anchors(canvas);
        let changes = self.solve_all(canvas, Ghost(old(self)@));
        proof {
            let list = patches(old(self).order(), patch_of(canvas@.store, old(self)@));
            lemma_patches_fit(canvas@, old(self)@, old(self).order());
            assert forall|i: int| 0 <= i < changes@.len() implies (#[trigger] changes@[i]).index
                < canvas@.store.bodies.len() && changes@[i].index < canvas@.offsets.len() by {
                assert(list[i] == changes@[i]@);
            }
        }
        apply_changes(canvas, &changes);
    }

    /// Whether each body that a frame would move has a place where it is drawn.
    pub fn is_drawable(&self, canvas: &Canvas) -> (result: bool)
        requires
            self.wf(),
            canvas.wf(),
        ensures
            result == drawable(canvas@, self@),
    {
        proof {
            lemma_drawable(canvas@, self@);
        }
        self.are_drawn(canvas)
    }

    fn are_drawn(&self, canvas: &Canvas) -> (result: bool)
        requires
            self.wf(),
            canvas.wf(),
        ensures
            result == all_drawn(canvas@, self@),
    {
        let ghost list = self.order();
        proof {
            self.lemma_order();
        }
        let mut index: usize = 0;
        while index < self.grapple_constraints.len()
            invariant
                index <= list.len(),
                list == self.order(),
                self.wf(),
                canvas.wf(),
                forall|name: Seq<char>| #[trigger]
                    self@.contains_key(name) <==> list.contains(name),
                forall|i: int| 0 <= i < index ==> drawn(canvas@, self@, #[trigger] list[i]),
            decreases list.len() - index,
        {
            let name = self.grapple_constraints.name_at(index);
            proof {
                assert(list.contains(name@));
                assert(self@.contains_key(name@));
            }
            if !self.is_drawn(canvas, name) {
                return false;
            }
            index = index + 1;
        }
        assert forall|name: Seq<char>| #[trigger] self@.contains_key(name) implies drawn(
            canvas@,
            self@,
            name,
        ) by {
            assert(list.contains(name));
            assert(list[list.index_of(name)] == name);
        }
        true
    }

    fn is_drawn(&self, canvas: &Canvas, name: &String) -> (result: bool)
        requires
            self.wf(),
            canvas.wf(),
            self@.contains_key(name@),
        ensures
            result == drawn(canvas@, self@, name@),
    {
        reveal(drawn);
        if let Some(place) = canvas.store.index_of(name) {
            if place < canvas.layout.offsets.len() {
                return true;
            }
            let object = canvas.store.objects[place];
            assert(canvas@.store.find(name@) == Some(object@));
            if let Some(grapple) = self.grapple_constraints.get(name) {
                let mut trial = grapple.clone();
                if let Some(anchor) = point_to_follow(grapple, canvas) {
                    trial.anchor = anchor;
                }
                assert(trial@ == anchored(self@[name@], canvas@.store));
                return !trial.solve(object.center(), object.momentum).applied();
            }
        }
        true
    }

    /// Moves the anchors of the grapples that follow a body.
    fn follow_anchors(&mut self, canvas: &Canvas)
        requires
            old(self).wf(),
            canvas.wf(),
        ensures
            final(self).wf(),
            final(self).order() == old(self).order(),
            final(self)@ == anchored_table(canvas@.store, old(self)@),
    {
        let ghost list = self.order();
        let ghost table = self@;
        let ghost store = canvas@.store;
        let ghost goal = anchored_table(store, table);
        proof {
            self.grapple_constraints.lemma_order();
            assert(self@ =~= mixed(table, goal, list.take(0)));
        }
        let mut index: usize = 0;
        while index < self.grapple_constraints.len()
            invariant
                index <= list.len(),
                list == self.order(),
                list.no_duplicates(),
                self.wf(),
                canvas.wf(),
                forall|name: Seq<char>| #[trigger]
                    table.contains_key(name) <==> list.contains(name),
                store == canvas@.store,
                goal == anchored_table(store, table),
                self@ == mixed(table, goal, list.take(index as int)),
            decreases list.len() - index,
        {
            let ghost before = self@;
            let name: String = self.grapple_constraints.name_at(index).clone();
            proof {
                lemma_mixed(table, goal, list, index as int);
            }
            let center: Option<(F32, F32)> = match self.grapple_constraints.get(&name) {
                Some(grapple) => point_to_follow(grapple, canvas),
                None => None,
            };
            if let Some(anchor) = center {
                if let Some(grapple) = self.grapple_constraints.get_mut(&name) {
                    grapple.anchor = anchor;
                }
            }
            assert(self@ =~= before.insert(name@, goal[name@]));
            index = index + 1;
        }
        proof {
            assert(list.take(index as int) =~= list);
            assert(self@ =~= goal);
        }
    }

    /// Solves each grapple, and collects the changes to the bodies.
    fn solve_all(&mut self, canvas: &Canvas, Ghost(table): Ghost<Table>) -> (changes: Vec<
        PendingPatch,
    >)
        requires
            old(self).wf(),
            canvas.wf(),
            old(self)@ == anchored_table(canvas@.store, table),
        ensures
            final(self).wf(),
            final(self).order() == old(self).order(),
            final(self)@ == enforced_table(canvas@.store, table),
            pending(changes@) == patches(old(self).order(), patch_of(canvas@.store, table)),
    {
        let ghost list = self.order();
        let ghost store = canvas@.store;
        let ghost start = self@;
        let ghost goal = enforced_table(store, table);
        let mut changes: Vec<PendingPatch> = Vec::new();
        proof {
            self.grapple_constraints.lemma_order();
            assert(self@ =~= mixed(start, goal, list.take(0)));
            assert(pending(changes@) =~= patches(list.take(0), patch_of(store, table)));
        }
        let mut index: usize = 0;
        while index < self.grapple_constraints.len()
            invariant
                index <= list.len(),
                list == self.order(),
                list.no_duplicates(),
                self.wf(),
                canvas.wf(),
                forall|name: Seq<char>| #[trigger]
                    start.contains_key(name) <==> list.contains(name),
                store == canvas@.store,
                start == anchored_table(store, table),
                goal == enforced_table(store, table),
                self@ == mixed(start, goal, list.take(index as int)),
                pending(changes@) == patches(list.take(index as int), patch_of(store, table)),
            decreases list.len() - index,
        {
            let ghost before = self@;
            let ghost collected = changes@;
            let name: String = self.grapple_constraints.name_at(index).clone();
            proof {
                lemma_mixed(start, goal, list, index as int);
                lemma_take_contains(list, index as int);
                assert(list.take(index + 1).drop_last() =~= list.take(index as int));
            }
            if let Some(place) = canvas.store.index_of(&name) {
                let object = canvas.store.objects[place];
                assert(store.find(name@) == Some(object@));
                if let Some(grapple) = self.grapple_constraints.get_mut(&name) {
                    let correction = grapple.solve(object.center(), object.momentum);
                    if let (Some(center), Some(velocity)) = (
                        correction.position,
                        correction.velocity,
                    ) {
                        changes.push(
                            PendingPatch {
                                index: place,
                                position: difference_of(center, object.half()),
                                velocity,
                            },
                        );
                        assert(pending(changes@) =~= pending(collected).push(changes@.last()@));
                    }
                }
            }
            proof {
                assert(self@ =~= before.insert(name@, goal[name@]));
                assert(pending(changes@) =~= patches(list.take(index + 1), patch_of(store, table)));
            }
            index = index + 1;
        }
        proof {
            assert(list.take(index as int) =~= list);
            assert(self@ =~= goal);
        }
        changes
    }
}

/// Whether all bodies that have a grapple are drawn, if it moves them.
spec fn all_drawn(scene: Scene, table: Table) -> bool {
    forall|name: Seq<char>| #[trigger] table.contains_key(name) ==> drawn(scene, table, name)
}

proof fn lemma_drawable(scene: Scene, table: Table)
    ensures
        drawable(scene, table) == all_drawn(scene, table),
{
    reveal(drawn);
}

/// Where the anchor of a grapple moves to: the middle of the body that it follows, where it follows
/// one that the scene knows.
fn point_to_follow(grapple: &GrappleConstraint, canvas: &Canvas) -> (point: Option<(F32, F32)>)
    requires
        canvas.wf(),
    ensures
        anchored(grapple@, canvas@.store) == (match point {
            Some(anchor) => Grapple { anchor: anchor@, ..grapple@ },
            None => grapple@,
        }),
        point is Some <==> grapple@.anchor_object is Some && canvas@.store.find(
            grapple@.anchor_object->0,
        ) is Some,
{
    match &grapple.anchor_object {
        Some(name) => match canvas.get_game_object(name) {
            Some(object) => Some(object.center()),
            None => None,
        },
        None => None,
    }
}

/// Makes changes to the bodies of a scene.
fn apply_changes(canvas: &mut Canvas, changes: &Vec<PendingPatch>)
    requires
        old(canvas).wf(),
        forall|i: int|
            0 <= i < changes@.len() ==> (#[trigger] changes@[i]).index
                < old(canvas)@.store.bodies.len() && changes@[i].index
                < old(canvas)@.offsets.len(),
    ensures
        final(canvas).wf(),
        final(canvas)@ == (Scene {
            store: Store {
                bodies: moved(old(canvas)@.store.bodies, pending(changes@)),
                ..old(canvas)@.store
            },
            offsets: redrawn(old(canvas)@.offsets, pending(changes@)),
            ..old(canvas)@
        }),
{
    let ghost all = pending(changes@);
    let ghost start = canvas@;
    let mut index: usize = 0;
    assert(all.take(0) =~= Seq::<Patch>::empty());
    while index < changes.len()
        invariant
            index <= changes@.len(),
            all == pending(changes@),
            start == old(canvas)@,
            canvas.wf(),
            canvas@.store.index == start.store.index,
            canvas@.woken == start.woken,
            canvas@.store.bodies.len() == start.store.bodies.len(),
            canvas@.offsets.len() == start.offsets.len(),
            canvas@.store.bodies == moved(start.store.bodies, all.take(index as int)),
            canvas@.offsets == redrawn(start.offsets, all.take(index as int)),
            forall|i: int|
                0 <= i < changes@.len() ==> (#[trigger] changes@[i]).index
                    < start.store.bodies.len() && changes@[i].index < start.offsets.len(),
        decreases changes@.len() - index,
    {
        let ghost before = canvas@;
        let place: usize = changes[index].index;
        let mut object = canvas.store.objects[place];
        object.position = changes[index].position;
        object.momentum = changes[index].velocity;
        canvas.store.objects[place] = object;
        canvas.layout.offsets[place] = changes[index].position;
        proof {
            let change = all[index as int];
            assert(all.take(index + 1).drop_last() =~= all.take(index as int));
            assert(all.take(index + 1).last() == change);
            assert(canvas@.store.bodies =~= before.store.bodies.update(change.index, object@));
            assert(canvas@.offsets =~= before.offsets.update(change.index, change.position));
        }
        index = index + 1;
    }
    assert(all.take(index as int) =~= all);
}

/// The meaning of a list of changes.
spec fn pending(changes: Seq<PendingPatch>) -> Seq<Patch> {
    Seq::new(changes.len(), |i: int| changes[i]@)
}

/// A table in which the anchors have followed.
pub open spec fn anchored_table(store: Store, table: Table) -> Table {
    Map::new(
        |name: Seq<char>| table.contains_key(name),
        |name: Seq<char>| anchored(table[name], store),
    )
}

/// The changes concern bodies that exist and are drawn.
proof fn lemma_patches_fit(scene: Scene, table: Table, names: Seq<Seq<char>>)
    requires
        drawable(scene, table),
        forall|i: int| 0 <= i < names.len() ==> table.contains_key(#[trigger] names[i]),
    ensures
        forall|i: int|
            0 <= i < patches(names, patch_of(scene.store, table)).len() ==> {
                let change = #[trigger] patches(names, patch_of(scene.store, table))[i];
                0 <= change.index < scene.store.bodies.len() && change.index < scene.offsets.len()
            },
    decreases names.len(),
{
    if names.len() > 0 {
        let name = names.last();
        let earlier = patches(names.drop_last(), patch_of(scene.store, table));
        let all = patches(names, patch_of(scene.store, table));
        assert(table.contains_key(names[names.len() - 1]));
        lemma_patches_fit(scene, table, names.drop_last());
        lemma_patch_place(scene.store, table, name);
        assert forall|i: int| 0 <= i < all.len() implies {
            let change = #[trigger] all[i];
            0 <= change.index < scene.store.bodies.len() && change.index < scene.offsets.len()
        } by {
            if i < earlier.len() {
                assert(all[i] == earlier[i]);
            }
        }
    }
}

/// A change concerns the body of the name that it is made for.
pub(crate) proof fn lemma_patch_place(store: Store, table: Table, name: Seq<char>)
    ensures
        patch(store, table, name) matches Some(change) ==> store.knows(name) && change.index
            == store.index[name],
{
}

/// A table that has the values of `after` for some names, and those of `before` for the others.
spec fn mixed(before: Table, after: Table, names: Seq<Seq<char>>) -> Table {
    Map::new(
        |name: Seq<char>| before.contains_key(name),
        |name: Seq<char>|
            if names.contains(name) {
                after[name]
            } else {
                before[name]
            },
    )
}

proof fn lemma_mixed(before: Table, after: Table, names: Seq<Seq<char>>, index: int)
    requires
        names.no_duplicates(),
        0 <= index < names.len(),
        before.contains_key(names[index]),
    ensures
        mixed(before, after, names.take(index)).contains_key(names[index]),
        mixed(before, after, names.take(index))[names[index]] == before[names[index]],
        mixed(before, after, names.take(index + 1)) == mixed(
            before,
            after,
            names.take(index),
        ).insert(names[index], after[names[index]]),
{
    let name = names[index];
    let shorter = names.take(index);
    assert(!shorter.contains(name)) by {
        if shorter.contains(name) {
            let i = shorter.index_of(name);
            assert(names[i] == name);
        }
    }
    lemma_take_contains(names, index);
    assert(mixed(before, after, names.take(index + 1)) =~= mixed(before, after, shorter).insert(
        name,
        after[name],
    ));
}

/// What one more name adds to the first ones of a list.
proof fn lemma_take_contains(names: Seq<Seq<char>>, index: int)
    requires
        0 <= index < names.len(),
    ensures
        names.take(index + 1) == names.take(index).push(names[index]),
        forall|name: Seq<char>| #[trigger]
            names.take(index + 1).contains(name) <==> names.take(index).contains(name) || name
                == names[index],
{
    let longer = names.take(index + 1);
    let shorter = names.take(index);
    assert(longer =~= shorter.push(names[index]));
    assert forall|name: Seq<char>| #[trigger] longer.contains(name) <==> shorter.contains(name)
        || name == names[index] by {
        if shorter.contains(name) {
            let i = shorter.index_of(name);
            assert(longer[i] == name);
        }
        if name == names[index] {
            assert(longer[index] == name);
        }
        if longer.contains(name) {
            let i = longer.index_of(name);
            assert(longer[i] == name);
            if i < index {
                assert(shorter[i] == name);
            }
        }
    }
}

} // verus!
