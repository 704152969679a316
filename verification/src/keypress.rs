use vstd::prelude::*;

use crate::keys::{Input, KeyMap, KeyPresserConfig, LocalKey};

verus! {

/// Why a key sequence was rejected.
#[derive(Debug, Clone, Copy, PartialEq, Eq, Structural)]
pub enum ValidateError {
    EmptyKeys,
    ResendNotAllowed,
    OpenMustBeFirst,
    ThrowMustBeLast,
}

impl ValidateError {
    /// The description each rejection carries.
    pub open spec fn describe_spec(&self) -> Seq<char> {
        match self {
            ValidateError::EmptyKeys => "keys must not be empty"@,
            ValidateError::ResendNotAllowed => "can not use resend key"@,
            ValidateError::OpenMustBeFirst => "open key must be first"@,
            ValidateError::ThrowMustBeLast => "throw key must be last"@,
        }
    }

    /// Human-readable description of the rejection.
    pub fn describe(&self) -> (r: &'static str)
        ensures
            r@ == self.describe_spec(),
    {
        match self {
            ValidateError::EmptyKeys => "keys must not be empty",
            ValidateError::ResendNotAllowed => "can not use resend key",
            ValidateError::OpenMustBeFirst => "open key must be first",
            ValidateError::ThrowMustBeLast => "throw key must be last",
        }
    }
}

/// Whether `k` occurs anywhere in `s`.
pub open spec fn seq_has_key(s: Seq<LocalKey>, k: LocalKey) -> bool {
    exists|i: int| 0 <= i < s.len() && s[i] == k
}

/// A well-formed macro sequence: non-empty, never contains the resend
/// role, the open role stands only at the first position, and the throw
/// role stands only at the last.  The singletons of open alone and throw
/// alone are well formed: their one position is both first and last.
pub open spec fn seq_valid(s: Seq<LocalKey>) -> bool {
    &&& s.len() > 0
    &&& forall|i: int| 0 <= i < s.len() ==> s[i] != LocalKey::RESEND
    &&& forall|i: int| 0 <= i < s.len() && s[i] == LocalKey::OPEN ==> i == 0
    &&& forall|i: int| 0 <= i < s.len() && s[i] == LocalKey::THROW ==> i == s.len() - 1
}

/// Left-to-right scan of the interior elements `s[i..len-1]`, reporting the
/// first misplaced open or throw role.
pub open spec fn mid_scan(s: Seq<LocalKey>, i: int) -> Result<(), ValidateError>
    decreases s.len() - i,
{
    if i < 1 || i >= s.len() - 1 {
        Ok(())
    } else if s[i] == LocalKey::THROW {
        Err(ValidateError::ThrowMustBeLast)
    } else if s[i] == LocalKey::OPEN {
        Err(ValidateError::OpenMustBeFirst)
    } else {
        mid_scan(s, i + 1)
    }
}

/// The exact verdict of sequence validation, with the same precedence of
/// checks as [`KeyPresser::has_validity`] performs.
pub open spec fn validate_spec(s: Seq<LocalKey>) -> Result<(), ValidateError> {
    if s.len() == 0 {
        Err(ValidateError::EmptyKeys)
    } else if seq_has_key(s, LocalKey::RESEND) {
        Err(ValidateError::ResendNotAllowed)
    } else if seq_has_key(s, LocalKey::OPEN) || seq_has_key(s, LocalKey::THROW) {
        if s.len() > 1 && s[s.len() - 1] == LocalKey::OPEN {
            Err(ValidateError::OpenMustBeFirst)
        } else if s.len() > 1 && s[0] == LocalKey::THROW {
            Err(ValidateError::ThrowMustBeLast)
        } else {
            mid_scan(s, 1)
        }
    } else {
        Ok(())
    }
}

/// An interior scan starting at `i` accepts exactly when no interior element
/// from `i` on is an open or throw role.
proof fn lemma_mid_scan_ok(s: Seq<LocalKey>, i: int)
    requires
        1 <= i,
    ensures
        mid_scan(s, i) is Ok <==> forall|j: int|
            i <= j < s.len() - 1 ==> s[j] != LocalKey::OPEN && s[j] != LocalKey::THROW,
    decreases s.len() - i,
{
    if i < s.len() - 1 {
        lemma_mid_scan_ok(s, i + 1);
    }
}

/// Validation accepts exactly the well-formed sequences of [`seq_valid`].
pub proof fn lemma_validate_ok_iff_valid(s: Seq<LocalKey>)
    ensures
        validate_spec(s) is Ok <==> seq_valid(s),
{
    if s.len() == 0 {
        return ;
    }
    lemma_mid_scan_ok(s, 1);
    if validate_spec(s) is Ok {
        assert forall|i: int| 0 <= i < s.len() && s[i] == LocalKey::OPEN implies i == 0 by {
            if i != 0 {
                assert(seq_has_key(s, LocalKey::OPEN));
            }
        }
        assert forall|i: int|
            0 <= i < s.len() && s[i] == LocalKey::THROW implies i == s.len() - 1 by {
            if i != s.len() - 1 {
                assert(seq_has_key(s, LocalKey::THROW));
            }
        }
    }
}

/// An owned copy of a borrowed sequence of roles.
pub fn copy_keys(keys: &[LocalKey]) -> (v: Vec<LocalKey>)
    ensures
        v@ == keys@,
{
    let n = keys.len();
    let mut v: Vec<LocalKey> = Vec::new();
    let mut i: usize = 0;
    while i < n
        invariant
            i <= n,
            n == keys@.len(),
            v@ == keys@.take(i as int),
        decreases n - i,
    {
        v.push(keys[i]);
        assert(keys@.take(i + 1) =~= keys@.take(i as int).push(keys@[i as int]));
        i = i + 1;
    }
    assert(keys@.take(n as int) =~= keys@);
    v
}

/// The abstract value of an optional stored sequence.
pub open spec fn stack_view(o: Option<Vec<LocalKey>>, ) -> Option<Seq<LocalKey>> {
    match o {
        Some(v) => Some(v@),
        None => None,
    }
}

/// The first sequence bound to shortcut input `i` in `pairs`, if any.
pub open spec fn shortcut_lookup(pairs: Seq<(Input, Seq<LocalKey>)>, i: Input) -> Option<
    Seq<LocalKey>,
>
    decreases pairs.len(),
{
    if pairs.len() == 0 {
        None
    } else if pairs[0].0 == i {
        Some(pairs[0].1)
    } else {
        shortcut_lookup(pairs.drop_first(), i)
    }
}

/// The primary stack after a push: a sequence that does not start with the
/// open role arms both stacks; one that does bypasses them entirely.
pub open spec fn push_next(
    one: Option<Seq<LocalKey>>,
    spare: Option<Seq<LocalKey>>,
    keys: Seq<LocalKey>,
) -> (Option<Seq<LocalKey>>, Option<Seq<LocalKey>>) {
    if keys.len() > 0 && keys[0] != LocalKey::OPEN {
        (Some(keys), Some(keys))
    } else {
        (one, spare)
    }
}

/// What a push hands to the dispatch worker: sequences that start with the
/// open role are dispatched immediately.
pub open spec fn push_out(keys: Seq<LocalKey>) -> Option<Seq<LocalKey>> {
    if keys.len() > 0 && keys[0] == LocalKey::OPEN {
        Some(keys)
    } else {
        None
    }
}

/// The stacks after one observed physical input: the open trigger empties
/// the primary stack, the resend trigger re-arms it from the spare stack,
/// and anything else leaves both untouched.
pub open spec fn input_next(
    one: Option<Seq<LocalKey>>,
    spare: Option<Seq<LocalKey>>,
    map: KeyMap,
    input: Input,
) -> (Option<Seq<LocalKey>>, Option<Seq<LocalKey>>) {
    if input == map.open {
        (None, spare)
    } else if input == map.resend {
        match spare {
            Some(s) => (Some(s), spare),
            None => (one, spare),
        }
    } else {
        (one, spare)
    }
}

/// What one observed physical input hands to the dispatch worker: the open
/// trigger dispatches the armed sequence, and a bound shortcut dispatches
/// its own sequence directly.
pub open spec fn input_out(
    one: Option<Seq<LocalKey>>,
    map: KeyMap,
    shortcuts: Seq<(Input, Seq<LocalKey>)>,
    input: Input,
) -> Option<Seq<LocalKey>> {
    if input == map.open {
        one
    } else if input == map.resend {
        None
    } else {
        shortcut_lookup(shortcuts, input)
    }
}

/// One synthetic output operation of the dispatch worker.
#[derive(Debug, Clone, Copy, PartialEq, Eq, Structural)]
pub enum KeyAction {
    Press(Input),
    Release(Input),
    Wait(u64),
}

/// The four actions that emit one ordinary key: press, hold, release, gap.
pub open spec fn key_taps(map: KeyMap, cfg: KeyPresserConfig, k: LocalKey) -> Seq<KeyAction> {
    seq![
        KeyAction::Press(map.spec_of(k)),
        KeyAction::Wait(cfg.key_release_interval),
        KeyAction::Release(map.spec_of(k)),
        KeyAction::Wait(cfg.diff_key_interval),
    ]
}

/// The press/hold/release/gap actions of every role in `keys`, in order.
pub open spec fn taps_seq(map: KeyMap, cfg: KeyPresserConfig, keys: Seq<LocalKey>) -> Seq<
    KeyAction,
>
    decreases keys.len(),
{
    if keys.len() == 0 {
        Seq::empty()
    } else {
        key_taps(map, cfg, keys[0]) + taps_seq(map, cfg, keys.drop_first())
    }
}

/// Everything the worker emits for one sequence.  A sequence that begins
/// with the open role holds that key down around the whole emission, with
/// the configured wait after the opening press; any other sequence skips
/// the open step entirely and is just the per-key taps.
pub open spec fn plan_spec(map: KeyMap, cfg: KeyPresserConfig, keys: Seq<LocalKey>) -> Seq<
    KeyAction,
> {
    if keys.len() > 0 && keys[0] == LocalKey::OPEN {
        seq![KeyAction::Press(map.open), KeyAction::Wait(cfg.wait_open_time)] + taps_seq(
            map,
            cfg,
            keys.drop_first(),
        ) + seq![KeyAction::Release(map.open)]
    } else {
        taps_seq(map, cfg, keys)
    }
}

/// Everything the worker emits while draining a queue of sequences, in
/// queue order.
pub open spec fn worker_plan(map: KeyMap, cfg: KeyPresserConfig, q: Seq<Seq<LocalKey>>) -> Seq<
    KeyAction,
>
    decreases q.len(),
{
    if q.len() == 0 {
        Seq::empty()
    } else {
        plan_spec(map, cfg, q[0]) + worker_plan(map, cfg, q.drop_first())
    }
}

/// Sequences never interleave: in everything the worker emits for a queue,
/// each queued sequence's actions stand as one contiguous block, in queue
/// order, between the blocks of its neighbours.
pub proof fn lemma_no_interleaving(
    map: KeyMap,
    cfg: KeyPresserConfig,
    q: Seq<Seq<LocalKey>>,
    i: int,
)
    requires
        0 <= i < q.len(),
    ensures
        worker_plan(map, cfg, q) == worker_plan(map, cfg, q.take(i)) + plan_spec(map, cfg, q[i])
            + worker_plan(map, cfg, q.skip(i + 1)),
    decreases i,
{
    if i == 0 {
        assert(q.take(0) =~= Seq::<Seq<LocalKey>>::empty());
        assert(q.skip(1) =~= q.drop_first());
        assert(worker_plan(map, cfg, q.take(0)) + plan_spec(map, cfg, q[0]) + worker_plan(
            map,
            cfg,
            q.skip(1),
        ) =~= plan_spec(map, cfg, q[0]) + worker_plan(map, cfg, q.drop_first()));
    } else {
        lemma_no_interleaving(map, cfg, q.drop_first(), i - 1);
        assert(q.drop_first().take(i - 1) =~= q.take(i).drop_first());
        assert(q.drop_first().skip(i) =~= q.skip(i + 1));
        assert(q.drop_first()[i - 1] == q[i]);
        assert(plan_spec(map, cfg, q[0]) + (worker_plan(map, cfg, q.take(i).drop_first())
            + plan_spec(map, cfg, q[i]) + worker_plan(map, cfg, q.skip(i + 1))) =~= (plan_spec(
            map,
            cfg,
            q[0],
        ) + worker_plan(map, cfg, q.take(i).drop_first())) + plan_spec(map, cfg, q[i])
            + worker_plan(map, cfg, q.skip(i + 1)));
        assert(q.take(i)[0] == q[0]);
    }
}

/// Re-triggering reproduces the exact dispatch: after a sequence is armed
/// by a push and fired by the open trigger (which empties the primary
/// stack), a resend trigger followed by another open trigger hands the
/// worker the identical sequence again, so the identical actions are
/// emitted.
pub proof fn lemma_resend_then_open_repeats(
    map: KeyMap,
    shortcuts: Seq<(Input, Seq<LocalKey>)>,
    one0: Option<Seq<LocalKey>>,
    spare0: Option<Seq<LocalKey>>,
    keys: Seq<LocalKey>,
)
    requires
        keys.len() > 0,
        keys[0] != LocalKey::OPEN,
        map.open != map.resend,
    ensures
        ({
            let (one1, spare1) = push_next(one0, spare0, keys);
            let d1 = input_out(one1, map, shortcuts, map.open);
            let (one2, spare2) = input_next(one1, spare1, map, map.open);
            let (one3, spare3) = input_next(one2, spare2, map, map.resend);
            let d2 = input_out(one3, map, shortcuts, map.open);
            d1 == Some(keys) && one2 is None && d2 == d1
        }),
{
}

/// Owns the two replay stacks and decides, for every pushed sequence and
/// every observed physical input, what the dispatch worker must emit.
pub struct KeyPresser {
    /// Playback timing.
    pub config: KeyPresserConfig,
    /// Total binding of roles to physical inputs.
    pub key_map: KeyMap,
    /// Sequences bound directly to a physical input.
    pub shortcut: Vec<(Input, Vec<LocalKey>)>,
    /// Consumed when the open trigger fires.
    pub one_stack: Option<Vec<LocalKey>>,
    /// Retains the last armed sequence for the resend trigger.
    pub spare_stack: Option<Vec<LocalKey>>,
}

impl KeyPresser {
    /// The abstract value of the primary stack.
    pub open spec fn one(&self) -> Option<Seq<LocalKey>> {
        stack_view(self.one_stack)
    }

    /// The abstract value of the spare stack.
    pub open spec fn spare(&self) -> Option<Seq<LocalKey>> {
        stack_view(self.spare_stack)
    }

    /// The abstract value of the shortcut table.
    pub open spec fn shortcuts(&self) -> Seq<(Input, Seq<LocalKey>)> {
        self.shortcut@.map_values(|p: (Input, Vec<LocalKey>)| (p.0, p.1@))
    }

    /// Builds a presser from configured bindings; fails exactly when some
    /// role has no physical input bound to it.
    pub fn new(
        config: KeyPresserConfig,
        key_map: &Vec<(LocalKey, Input)>,
        shortcut: Vec<(Input, Vec<LocalKey>)>,
    ) -> (r: Result<KeyPresser, crate::keys::KeyMapError>)
        ensures
            match r {
                Ok(p) => {
                    &&& KeyMap::from_pairs_spec_ok(key_map@, p.key_map)
                    &&& p.one() is None
                    &&& p.spare() is None
                    &&& p.shortcut == shortcut
                    &&& p.config == config
                },
                Err(crate::keys::KeyMapError::MissingMapping(k)) => KeyMap::spec_lookup(
                    key_map@,
                    k,
                ) is None,
            },
    {
        let map = KeyMap::from_pairs(key_map)?;
        Ok(KeyPresser { config, key_map: map, shortcut, one_stack: None, spare_stack: None })
    }

    /// Checks that a sequence is well formed; [`seq_valid`] characterises
    /// the accepted sequences, and the error names the first violated rule.
    pub fn has_validity(keys: &[LocalKey]) -> (r: Result<(), ValidateError>)
        ensures
            r == validate_spec(keys@),
            r is Ok <==> seq_valid(keys@),
    {
        proof {
            lemma_validate_ok_iff_valid(keys@);
        }
        let n = keys.len();
        if n == 0 {
            return Err(ValidateError::EmptyKeys);
        }
        if Self::contains(keys, LocalKey::RESEND) {
            return Err(ValidateError::ResendNotAllowed);
        }
        if Self::contains(keys, LocalKey::OPEN) || Self::contains(keys, LocalKey::THROW) {
            if n > 1 && keys[n - 1] == LocalKey::OPEN {
                return Err(ValidateError::OpenMustBeFirst);
            }
            if n > 1 && keys[0] == LocalKey::THROW {
                return Err(ValidateError::ThrowMustBeLast);
            }
            let mut i: usize = 1;
            while i < n - 1
                invariant
                    1 <= i <= n,
                    1 <= n == keys@.len(),
                    validate_spec(keys@) == mid_scan(keys@, i as int),
                    validate_spec(keys@) is Ok <==> seq_valid(keys@),
                decreases n - i,
            {
                if keys[i] == LocalKey::THROW {
                    return Err(ValidateError::ThrowMustBeLast);
                }
                if keys[i] == LocalKey::OPEN {
                    return Err(ValidateError::OpenMustBeFirst);
                }
                i = i + 1;
            }
        }
        Ok(())
    }

    fn contains(keys: &[LocalKey], k: LocalKey) -> (r: bool)
        ensures
            r == seq_has_key(keys@, k),
    {
        let n = keys.len();
        let mut i: usize = 0;
        while i < n
            invariant
                i <= n,
                n == keys@.len(),
                forall|j: int| 0 <= j < i ==> keys@[j] != k,
            decreases n - i,
        {
            if keys[i] == k {
                return true;
            }
            i = i + 1;
        }
        false
    }

    /// Accepts a sequence for later (or immediate) dispatch.  A sequence
    /// beginning with the open role is handed straight back for the worker;
    /// any other non-empty sequence overwrites both stacks; an empty one is
    /// ignored.
    pub fn push(&mut self, keys: &[LocalKey]) -> (d: Option<Vec<LocalKey>>)
        ensures
            (final(self).one(), final(self).spare()) == push_next(
                old(self).one(),
                old(self).spare(),
                keys@,
            ),
            stack_view(d) == push_out(keys@),
            final(self).config == old(self).config,
            final(self).key_map == old(self).key_map,
            final(self).shortcut == old(self).shortcut,
    {
        if keys.len() > 0 {
            if keys[0] == LocalKey::OPEN {
                return Some(copy_keys(keys));
            }
            self.one_stack = Some(copy_keys(keys));
            self.spare_stack = Some(copy_keys(keys));
        }
        None
    }

    /// The exact actions the dispatch worker must perform, in order, to
    /// emit `keys` once.
    pub fn dispatch_plan(&self, keys: &[LocalKey]) -> (acts: Vec<KeyAction>)
        ensures
            acts@ == plan_spec(self.key_map, self.config, keys@),
    {
        let mut acts: Vec<KeyAction> = Vec::new();
        let n = keys.len();
        let mut i: usize = 0;
        let ghost target = plan_spec(self.key_map, self.config, keys@);
        let held_open = n > 0 && keys[0] == LocalKey::OPEN;
        if held_open {
            acts.push(KeyAction::Press(self.key_map.open));
            acts.push(KeyAction::Wait(self.config.wait_open_time));
            i = 1;
        }
        let ghost rest = if held_open {
            keys@.drop_first()
        } else {
            keys@
        };
        let ghost tail = if held_open {
            seq![KeyAction::Release(self.key_map.open)]
        } else {
            Seq::<KeyAction>::empty()
        };
        assert(target =~= acts@ + taps_seq(self.key_map, self.config, rest) + tail);
        assert(rest.skip(0) =~= rest);
        while i < n
            invariant
                (if held_open {
                    1 <= i
                } else {
                    0 <= i
                }),
                i <= n,
                n == keys@.len(),
                rest == (if held_open {
                    keys@.drop_first()
                } else {
                    keys@
                }),
                target == acts@ + taps_seq(
                    self.key_map,
                    self.config,
                    rest.skip(i as int - (if held_open {
                        1int
                    } else {
                        0int
                    })),
                ) + tail,
                target == plan_spec(self.key_map, self.config, keys@),
            decreases n - i,
        {
            let ghost r = rest.skip(i as int - (if held_open { 1int } else { 0int }));
            let ghost acts0 = acts@;
            assert(r[0] == keys@[i as int]);
            let input = self.key_map.of(keys[i]);
            acts.push(KeyAction::Press(input));
            acts.push(KeyAction::Wait(self.config.key_release_interval));
            acts.push(KeyAction::Release(input));
            acts.push(KeyAction::Wait(self.config.diff_key_interval));
            proof {
                assert(r.drop_first() =~= rest.skip(i + 1 - (if held_open { 1int } else { 0int })));
                assert(taps_seq(self.key_map, self.config, r) == key_taps(
                    self.key_map,
                    self.config,
                    r[0],
                ) + taps_seq(self.key_map, self.config, r.drop_first()));
                assert(acts@ + taps_seq(self.key_map, self.config, r.drop_first()) =~= acts0
                    + taps_seq(self.key_map, self.config, r));
                assert(acts@ + taps_seq(self.key_map, self.config, r.drop_first()) + tail =~= acts0
                    + taps_seq(self.key_map, self.config, r) + tail);
            }
            i = i + 1;
        }
        proof {
            let r = rest.skip(n as int - (if held_open { 1int } else { 0int }));
            assert(r =~= Seq::<LocalKey>::empty());
            assert(acts@ + taps_seq(self.key_map, self.config, r) + tail =~= acts@ + tail);
        }
        let ghost acts1 = acts@;
        if held_open {
            acts.push(KeyAction::Release(self.key_map.open));
            assert(acts@ =~= acts1 + tail);
        } else {
            assert(acts@ =~= acts1 + tail);
        }
        assert(acts@ == target);
        acts
    }

    /// Reacts to one observed physical input: fires the armed sequence on
    /// the open trigger, re-arms the spare sequence on the resend trigger,
    /// and dispatches a bound shortcut sequence directly.  The returned
    /// sequence, if any, is what the worker must emit next.
    pub fn on_input(&mut self, input: Input) -> (d: Option<Vec<LocalKey>>)
        ensures
            (final(self).one(), final(self).spare()) == input_next(
                old(self).one(),
                old(self).spare(),
                old(self).key_map,
                input,
            ),
            stack_view(d) == input_out(
                old(self).one(),
                old(self).key_map,
                old(self).shortcuts(),
                input,
            ),
            final(self).config == old(self).config,
            final(self).key_map == old(self).key_map,
            final(self).shortcut == old(self).shortcut,
    {
        if input == self.key_map.open {
            return self.one_stack.take();
        }
        if input == self.key_map.resend {
            if let Some(s) = &self.spare_stack {
                self.one_stack = Some(s.clone());
            }
            return None;
        }
        let n = self.shortcut.len();
        let mut i: usize = 0;
        assert(self.shortcuts().skip(0) =~= self.shortcuts());
        while i < n
            invariant
                i <= n,
                n == self.shortcut@.len(),
                shortcut_lookup(self.shortcuts(), input) == shortcut_lookup(
                    self.shortcuts().skip(i as int),
                    input,
                ),
                input != self.key_map.open,
                input != self.key_map.resend,
                self == old(self),
            decreases n - i,
        {
            assert(self.shortcuts().skip(i as int)[0] == self.shortcuts()[i as int]);
            if self.shortcut[i].0 == input {
                return Some(self.shortcut[i].1.clone());
            }
            assert(self.shortcuts().skip(i as int).drop_first() =~= self.shortcuts().skip(i + 1));
            i = i + 1;
        }
        assert(self.shortcuts().skip(n as int) =~= Seq::<(Input, Seq<LocalKey>)>::empty());
        None
    }
}

} // verus!

