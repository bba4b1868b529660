//! Scene lifecycle: the per-frame context handed to scenes, the scene
//! contract, and the manager that owns the registry and drives
//! transitions.
//!
//! The manager is always in exactly one of two states: no active scene, or
//! exactly one active scene whose name is registered.  A queued transition
//! holds at most one pending target and is consumed the moment it is
//! applied.

use vstd::prelude::*;

use crate::config::EngineSettings;
use crate::draw::Canvas;
use crate::input::InputState;

verus! {

/// The failures the engine distinguishes.
#[derive(Clone, Copy, Debug, PartialEq, Eq, Structural)]
pub enum EngineError {
    /// The configuration source was unreadable or malformed.
    ConfigError,
    /// A transition or activation referenced an unregistered scene name.
    SceneNotFound,
    /// Writing to or configuring the terminal failed.
    TerminalIoError,
}

/// The per-frame bundle passed to scenes: the frame's canvas, the engine
/// settings, timing fields, and an optional input snapshot.
pub struct Context {
    pub canvas: Canvas,
    pub engine: EngineSettings,
    pub delta_time_us: u64,
    pub total_time_us: u64,
    pub frame: u64,
    pub input: Option<InputState>,
}

impl Context {
    /// The input snapshot, if one was attached this frame.
    pub open spec fn spec_input(self) -> Option<InputState> {
        self.input
    }

    /// A fresh context around this frame's canvas, with zeroed timing and
    /// no input attached.
    pub fn new(canvas: Canvas, engine: EngineSettings) -> (ctx: Context)
        ensures
            ctx.canvas == canvas,
            ctx.engine == engine,
            ctx.delta_time_us == 0,
            ctx.total_time_us == 0,
            ctx.frame == 0,
            ctx.spec_input() is None,
    {
        Context { canvas, engine, delta_time_us: 0, total_time_us: 0, frame: 0, input: None }
    }

    /// Attaches (or detaches) the frame's input snapshot.
    pub fn set_input(&mut self, input: Option<InputState>)
        ensures
            final(self).spec_input() == input,
            final(self).canvas == old(self).canvas,
            final(self).engine == old(self).engine,
            final(self).delta_time_us == old(self).delta_time_us,
            final(self).total_time_us == old(self).total_time_us,
            final(self).frame == old(self).frame,
    {
        self.input = input;
    }

    /// The attached input snapshot, if any.
    pub fn input(&self) -> (r: Option<&InputState>)
        ensures
            r is Some <==> self.spec_input() is Some,
            r is Some ==> *r->0 == self.spec_input()->0,
    {
        self.input.as_ref()
    }

    /// Sets this frame's timing: the frame's delta, the total run time,
    /// and the frame counter.
    pub fn set_timing(&mut self, delta_time_us: u64, total_time_us: u64, frame: u64)
        ensures
            final(self).delta_time_us == delta_time_us,
            final(self).total_time_us == total_time_us,
            final(self).frame == frame,
            final(self).canvas == old(self).canvas,
            final(self).engine == old(self).engine,
            final(self).spec_input() == old(self).spec_input(),
    {
        self.delta_time_us = delta_time_us;
        self.total_time_us = total_time_us;
        self.frame = frame;
    }
}

/// The scene contract: four lifecycle hooks, each given the frame's
/// context.  The manager guarantees `on_start` runs exactly once before
/// the first `on_update` or `on_draw` of an activation, and `on_exit`
/// exactly once when the scene stops being active.
pub trait Scene {
    fn on_start(&mut self, ctx: &mut Context);

    fn on_update(&mut self, ctx: &mut Context);

    fn on_draw(&mut self, ctx: &mut Context);

    fn on_exit(&mut self, ctx: &mut Context);
}

/// The registry as a map from scene name to scene, later entries winning.
pub open spec fn registry_of<S>(s: Seq<(String, S)>) -> Map<Seq<char>, S>
    decreases s.len(),
{
    if s.len() == 0 {
        Map::empty()
    } else {
        registry_of(s.drop_last()).insert(s.last().0@, s.last().1)
    }
}

/// A name is in the registry map exactly when some entry carries it.
pub proof fn lemma_registry_membership<S>(s: Seq<(String, S)>, n: Seq<char>)
    ensures
        registry_of(s).contains_key(n) <==> exists|k: int| 0 <= k < s.len() && s[k].0@ == n,
    decreases s.len(),
{
    if s.len() > 0 {
        lemma_registry_membership(s.drop_last(), n);
        if registry_of(s).contains_key(n) {
            if s.last().0@ != n {
                let k = choose|k: int| 0 <= k < s.len() - 1 && s.drop_last()[k].0@ == n;
                assert(s[k].0@ == n);
            } else {
                assert(s[s.len() - 1].0@ == n);
            }
        }
        if exists|k: int| 0 <= k < s.len() && s[k].0@ == n {
            let k = choose|k: int| 0 <= k < s.len() && s[k].0@ == n;
            if k < s.len() - 1 {
                assert(s.drop_last()[k].0@ == n);
            }
        }
    }
}

/// Owns the named scenes and drives their lifecycle.
pub struct SceneManager<S> {
    scenes: Vec<(String, S)>,
    active_scene: Option<String>,
    queued_scene: Option<String>,
}

impl<S: Scene> SceneManager<S> {
    /// The registered names, in registration order.
    pub closed spec fn names(self) -> Seq<Seq<char>> {
        self.scenes@.map_values(|p: (String, S)| p.0@)
    }

    /// The registry as a map from name to scene.
    pub closed spec fn registry(self) -> Map<Seq<char>, S> {
        registry_of(self.scenes@)
    }

    /// Whether a scene is registered under `n`.
    pub open spec fn has_name(self, n: Seq<char>) -> bool {
        exists|k: int| 0 <= k < self.names().len() && self.names()[k] == n
    }

    /// The active scene's name, if one is active.
    pub closed spec fn active(self) -> Option<Seq<char>> {
        match self.active_scene {
            Some(s) => Some(s@),
            None => None,
        }
    }

    /// The pending transition target, if one is queued.
    pub closed spec fn queued(self) -> Option<Seq<char>> {
        match self.queued_scene {
            Some(s) => Some(s@),
            None => None,
        }
    }

    /// Names are unique, and an active scene is always registered.
    pub open spec fn wf(self) -> bool {
        &&& forall|i: int, j: int|
            0 <= i < j < self.names().len() ==> self.names()[i] != self.names()[j]
        &&& self.active() is Some ==> self.has_name(self.active()->0)
    }

    /// An empty manager: nothing registered, nothing active, nothing
    /// queued.
    pub fn new() -> (m: SceneManager<S>)
        ensures
            m.wf(),
            m.names() == Seq::<Seq<char>>::empty(),
            m.active() is None,
            m.queued() is None,
    {
        let m = SceneManager { scenes: Vec::new(), active_scene: None, queued_scene: None };
        proof {
            assert(m.names() =~= Seq::<Seq<char>>::empty());
        }
        m
    }

    /// The index of the entry registered under `name`, if any.
    fn find_index(&self, name: &String) -> (r: Option<usize>)
        ensures
            r is Some ==> 0 <= r->0 < self.names().len() && self.names()[r->0 as int] == name@,
            r is None ==> !self.has_name(name@),
    {
        let n = self.scenes.len();
        let mut i: usize = 0;
        while i < n
            invariant
                i <= n,
                n == self.scenes@.len(),
                forall|k: int| 0 <= k < i ==> self.scenes@[k].0@ != name@,
            decreases n - i,
        {
            if self.scenes[i].0.eq(name) {
                return Some(i);
            }
            i = i + 1;
        }
        None
    }

    /// Registers `scene` under `name`.  A reused name silently overwrites
    /// the earlier entry: last write wins.
    pub fn add_scene(&mut self, name: String, scene: S)
        requires
            old(self).wf(),
        ensures
            final(self).wf(),
            final(self).registry() == old(self).registry().insert(name@, scene),
            final(self).has_name(name@),
            forall|m: Seq<char>|
                final(self).has_name(m) <==> old(self).has_name(m) || m == name@,
            final(self).active() == old(self).active(),
            final(self).queued() == old(self).queued(),
    {
        let found = self.find_index(&name);
        proof {
            assert forall|a: int, b: int|
                0 <= a < b < old(self).scenes@.len() implies old(self).scenes@[a].0@
                != old(self).scenes@[b].0@ by {
                assert(old(self).names()[a] == old(self).scenes@[a].0@);
                assert(old(self).names()[b] == old(self).scenes@[b].0@);
            }
        }
        let ghost named = name@;
        match found {
            Some(i) => {
                proof {
                    assert(old(self).names()[i as int] == old(self).scenes@[i as int].0@);
                }
                self.scenes[i] = (name, scene);
                proof {
                    assert(self.scenes@ == old(self).scenes@.update(i as int, self.scenes@[i as int]));
                    lemma_registry_update(old(self).scenes@, i as int, self.scenes@[i as int]);
                    assert(self.names() =~= old(self).names());
                    assert(self.has_name(named)) by {
                        assert(self.names()[i as int] == named);
                    }
                }
            },
            None => {
                self.scenes.push((name, scene));
                proof {
                    assert(self.scenes@.drop_last() =~= old(self).scenes@);
                    assert(registry_of(self.scenes@) == registry_of(old(self).scenes@).insert(
                        named,
                        self.scenes@.last().1,
                    ));
                    assert(self.names() =~= old(self).names().push(named));
                    assert(self.has_name(named)) by {
                        assert(self.names()[old(self).names().len() as int] == named);
                    }
                }
            },
        }
        proof {
            assert forall|m: Seq<char>| #[trigger]
                final(self).has_name(m) implies (old(self).has_name(m) || m == named) by {
                if m != named {
                    let k = choose|k: int|
                        0 <= k < final(self).names().len() && final(self).names()[k] == m;
                    assert(old(self).names()[k] == m);
                }
            }
            assert forall|m: Seq<char>| #[trigger]
                old(self).has_name(m) implies final(self).has_name(m) by {
                let k = choose|k: int|
                    0 <= k < old(self).names().len() && old(self).names()[k] == m;
                assert(final(self).names()[k] == m);
            }
            assert(final(self).wf()) by {
                if final(self).active() is Some {
                    assert(old(self).has_name(old(self).active()->0));
                }
                assert forall|a: int, b: int|
                    0 <= a < b < final(self).names().len() implies final(self).names()[a]
                    != final(self).names()[b] by {
                    if final(self).names().len() == old(self).names().len() {
                    } else {
                        if b == final(self).names().len() - 1 {
                            assert(final(self).names()[b] == named);
                            assert(final(self).names()[a] == old(self).names()[a]);
                            if old(self).names()[a] == named {
                                assert(old(self).has_name(named));
                            }
                        }
                    }
                }
            }
        }
    }

    /// Registers a heap-held scene under `name`; last write wins as for
    /// `add_scene`.
    pub fn add_boxed_scene(&mut self, name: String, scene: Box<S>)
        requires
            old(self).wf(),
        ensures
            final(self).wf(),
            final(self).has_name(name@),
            forall|m: Seq<char>|
                final(self).has_name(m) <==> old(self).has_name(m) || m == name@,
            final(self).active() == old(self).active(),
            final(self).queued() == old(self).queued(),
    {
        self.add_scene(name, *scene);
    }

    /// Whether a scene is registered under `name`.
    pub fn has_scene(&self, name: &String) -> (r: bool)
        ensures
            r == self.has_name(name@),
    {
        match self.find_index(name) {
            Some(_) => true,
            None => false,
        }
    }

    /// Records `name` as the pending transition target.  Only one target
    /// is retained: queuing again before the next update overwrites the
    /// earlier request.  The active scene does not change here.
    pub fn queue_transition(&mut self, name: String)
        requires
            old(self).wf(),
        ensures
            final(self).wf(),
            final(self).queued() == Some(name@),
            final(self).active() == old(self).active(),
            final(self).names() == old(self).names(),
            final(self).registry() == old(self).registry(),
    {
        self.queued_scene = Some(name);
        proof {
            assert(self.scenes@ == old(self).scenes@);
            assert(self.names() =~= old(self).names());
        }
    }

    /// The active scene's name, if one is active.
    pub fn current_scene(&self) -> (r: Option<&str>)
        ensures
            r is Some <==> self.active() is Some,
            r is Some ==> r->0@ == self.active()->0,
    {
        match &self.active_scene {
            Some(s) => Some(s.as_str()),
            None => None,
        }
    }

    /// Makes `name` the active scene.
    ///
    /// If `name` is already active this is a no-op.  Otherwise the current
    /// scene (if any) receives `on_exit` and active is cleared; then, if
    /// `name` is registered, it receives `on_start` and becomes active,
    /// else `SceneNotFound` comes back and no scene is active.
    pub fn activate(&mut self, name: &str, ctx: &mut Context) -> (r: Result<(), EngineError>)
        requires
            old(self).wf(),
        ensures
            final(self).wf(),
            final(self).names() == old(self).names(),
            final(self).queued() == old(self).queued(),
            r is Ok <==> (old(self).has_name(name@) || old(self).active() == Some(name@)),
            r is Ok ==> final(self).active() == Some(name@),
            r is Err ==> r == Err::<(), EngineError>(EngineError::SceneNotFound)
                && final(self).active() is None,
            old(self).active() == Some(name@) ==> *final(self) == *old(self),
            !old(self).has_name(name@) && old(self).active() is None ==> *final(self) == *old(
                self,
            ),
    {
        let name_s: String = name.to_owned();
        let is_same = match &self.active_scene {
            Some(cur) => cur.eq(&name_s),
            None => false,
        };
        if is_same {
            return Ok(());
        }
        let prev = self.active_scene.take();
        if let Some(cur) = prev {
            let found = self.find_index(&cur);
            if let Some(idx) = found {
                self.scenes[idx].1.on_exit(ctx);
                proof {
                    assert(self.names() =~= old(self).names());
                }
            }
        }
        let found = self.find_index(&name_s);
        match found {
            None => Err(EngineError::SceneNotFound),
            Some(idx) => {
                self.scenes[idx].1.on_start(ctx);
                proof {
                    assert(self.names() =~= old(self).names());
                }
                self.active_scene = Some(name_s);
                Ok(())
            },
        }
    }

    /// Runs one frame's update: a queued transition (if any) is consumed
    /// and applied first, so a scene activated this frame also receives
    /// `on_update` this frame; then the active scene (if any) is updated.
    pub fn update(&mut self, ctx: &mut Context) -> (r: Result<(), EngineError>)
        requires
            old(self).wf(),
        ensures
            final(self).wf(),
            final(self).names() == old(self).names(),
            final(self).queued() is None,
            old(self).queued() is None ==> r is Ok && final(self).active() == old(self).active(),
            old(self).queued() is Some ==> {
                let q = old(self).queued()->0;
                &&& r is Ok <==> (old(self).has_name(q) || old(self).active() == Some(q))
                &&& r is Ok ==> final(self).active() == Some(q)
                &&& r is Err ==> r == Err::<(), EngineError>(EngineError::SceneNotFound)
                    && final(self).active() is None
            },
    {
        let queued = self.queued_scene.take();
        if let Some(next) = queued {
            let res = self.activate(next.as_str(), ctx);
            if let Err(e) = res {
                return Err(e);
            }
        }
        let active = match &self.active_scene {
            Some(s) => Some(s.clone()),
            None => None,
        };
        if let Some(n) = active {
            let found = self.find_index(&n);
            if let Some(idx) = found {
                self.scenes[idx].1.on_update(ctx);
                proof {
                    assert(self.names() =~= old(self).names());
                }
            }
        }
        Ok(())
    }

    /// Draws the active scene, if any; a manager with no active scene
    /// draws nothing.
    pub fn draw(&mut self, ctx: &mut Context)
        requires
            old(self).wf(),
        ensures
            final(self).wf(),
            final(self).names() == old(self).names(),
            final(self).active() == old(self).active(),
            final(self).queued() == old(self).queued(),
    {
        let active = match &self.active_scene {
            Some(s) => Some(s.clone()),
            None => None,
        };
        if let Some(n) = active {
            let found = self.find_index(&n);
            if let Some(idx) = found {
                self.scenes[idx].1.on_draw(ctx);
                proof {
                    assert(self.names() =~= old(self).names());
                }
            }
        }
    }

    /// Ends the run: the active scene (if any) receives `on_exit` and
    /// active is cleared.  Intended to run exactly once at the end of the
    /// run loop.
    pub fn shutdown(&mut self, ctx: &mut Context)
        requires
            old(self).wf(),
        ensures
            final(self).wf(),
            final(self).names() == old(self).names(),
            final(self).active() is None,
            final(self).queued() == old(self).queued(),
    {
        let prev = self.active_scene.take();
        if let Some(cur) = prev {
            let found = self.find_index(&cur);
            if let Some(idx) = found {
                self.scenes[idx].1.on_exit(ctx);
                proof {
                    assert(self.names() =~= old(self).names());
                }
            }
        }
    }
}

/// Overwriting the entry at `i` with one carrying the same name updates
/// the registry map at that name, provided names are unique.
proof fn lemma_registry_update<S>(s: Seq<(String, S)>, i: int, entry: (String, S))
    requires
        0 <= i < s.len(),
        entry.0@ == s[i].0@,
        forall|a: int, b: int| 0 <= a < b < s.len() ==> s[a].0@ != s[b].0@,
    ensures
        registry_of(s.update(i, entry)) == registry_of(s).insert(entry.0@, entry.1),
    decreases s.len(),
{
    let su = s.update(i, entry);
    if i == s.len() - 1 {
        assert(su.drop_last() =~= s.drop_last());
        assert(registry_of(su) == registry_of(s.drop_last()).insert(entry.0@, entry.1));
        assert(registry_of(s).insert(entry.0@, entry.1) =~= registry_of(s.drop_last()).insert(
            s.last().0@,
            s.last().1,
        ).insert(entry.0@, entry.1));
        assert(registry_of(su) =~= registry_of(s).insert(entry.0@, entry.1));
    } else {
        assert(su.drop_last() =~= s.drop_last().update(i, entry));
        lemma_registry_update(s.drop_last(), i, entry);
        assert(su.last() == s.last());
        assert(entry.0@ != s.last().0@);
        assert(registry_of(su) == registry_of(s.drop_last()).insert(entry.0@, entry.1).insert(
            s.last().0@,
            s.last().1,
        ));
        assert(registry_of(su) =~= registry_of(s).insert(entry.0@, entry.1));
    }
}

} // verus!
