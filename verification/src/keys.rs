use vstd::prelude::*;

verus! {

/// Abstract role a key plays in a macro, independent of the physical key
/// bound to it.
#[derive(Debug, Clone, Copy, PartialEq, Eq, Hash, Structural)]
pub enum LocalKey {
    UP,
    DOWN,
    LEFT,
    RIGHT,
    /// Opens the loadout page; only ever the first key of a sequence.
    OPEN,
    /// Replays the last armed sequence; never part of a sequence itself.
    RESEND,
    /// Throws the selected item; only ever the last key of a sequence.
    THROW,
}

/// A concrete physical input: a pointer button or a keyboard key, identified
/// by a numeric platform code.
#[derive(Debug, Clone, Copy, PartialEq, Eq, Hash, Structural)]
pub enum Input {
    Button(u8),
    Key(u32),
}

/// Timing configuration for macro playback, all in milliseconds.
#[derive(Debug, Clone)]
pub struct KeyPresserConfig {
    /// Time to wait after pressing the key that opens the loadout page.
    pub wait_open_time: u64,
    /// Time a key is held down before it is released.
    pub key_release_interval: u64,
    /// Gap between the release of one key and the press of the next.
    pub diff_key_interval: u64,
}

impl Default for KeyPresserConfig {
    fn default() -> (c: Self)
        ensures
            c.wait_open_time == 400,
            c.key_release_interval == 50,
            c.diff_key_interval == 20,
    {
        Self { wait_open_time: 400, key_release_interval: 50, diff_key_interval: 20 }
    }
}

/// Error raised while building a [`KeyMap`].
#[derive(Debug, Clone, Copy, PartialEq, Eq, Structural)]
pub enum KeyMapError {
    /// A role has no physical input bound to it.
    MissingMapping(LocalKey),
}

/// A total mapping from every [`LocalKey`] role to the physical input bound
/// to it.  Totality is structural: one field per role, so a missing binding
/// cannot be represented.
#[derive(Debug, Clone, Copy, PartialEq, Eq, Structural)]
pub struct KeyMap {
    pub up: Input,
    pub down: Input,
    pub left: Input,
    pub right: Input,
    pub open: Input,
    pub resend: Input,
    pub throw: Input,
}

impl KeyMap {
    /// The input bound to a role.
    pub open spec fn spec_of(&self, k: LocalKey) -> Input {
        match k {
            LocalKey::UP => self.up,
            LocalKey::DOWN => self.down,
            LocalKey::LEFT => self.left,
            LocalKey::RIGHT => self.right,
            LocalKey::OPEN => self.open,
            LocalKey::RESEND => self.resend,
            LocalKey::THROW => self.throw,
        }
    }

    /// Executable lookup; total, so it cannot fail.
    #[verifier::when_used_as_spec(spec_of)]
    pub fn of(&self, k: LocalKey) -> (i: Input)
        ensures
            i == self.spec_of(k),
    {
        match k {
            LocalKey::UP => self.up,
            LocalKey::DOWN => self.down,
            LocalKey::LEFT => self.left,
            LocalKey::RIGHT => self.right,
            LocalKey::OPEN => self.open,
            LocalKey::RESEND => self.resend,
            LocalKey::THROW => self.throw,
        }
    }

    /// The first input bound to `k` in `pairs`, if any.
    pub open spec fn spec_lookup(pairs: Seq<(LocalKey, Input)>, k: LocalKey) -> Option<Input>
        decreases pairs.len(),
    {
        if pairs.len() == 0 {
            None
        } else if pairs[0].0 == k {
            Some(pairs[0].1)
        } else {
            Self::spec_lookup(pairs.drop_first(), k)
        }
    }

    /// A successfully built map binds every role to its first configured
    /// input.
    pub open spec fn from_pairs_spec_ok(pairs: Seq<(LocalKey, Input)>, m: KeyMap) -> bool {
        &&& Self::spec_lookup(pairs, LocalKey::UP) == Some(m.up)
        &&& Self::spec_lookup(pairs, LocalKey::DOWN) == Some(m.down)
        &&& Self::spec_lookup(pairs, LocalKey::LEFT) == Some(m.left)
        &&& Self::spec_lookup(pairs, LocalKey::RIGHT) == Some(m.right)
        &&& Self::spec_lookup(pairs, LocalKey::OPEN) == Some(m.open)
        &&& Self::spec_lookup(pairs, LocalKey::RESEND) == Some(m.resend)
        &&& Self::spec_lookup(pairs, LocalKey::THROW) == Some(m.throw)
    }

    /// Builds the total role map from configured `(role, input)` bindings.
    /// Every role must be bound; the first binding of a role wins.
    pub fn from_pairs(pairs: &Vec<(LocalKey, Input)>) -> (r: Result<KeyMap, KeyMapError>)
        ensures
            match r {
                Ok(m) => Self::from_pairs_spec_ok(pairs@, m),
                Err(KeyMapError::MissingMapping(k)) => Self::spec_lookup(pairs@, k) is None,
            },
    {
        let up = Self::lookup(pairs, LocalKey::UP);
        let down = Self::lookup(pairs, LocalKey::DOWN);
        let left = Self::lookup(pairs, LocalKey::LEFT);
        let right = Self::lookup(pairs, LocalKey::RIGHT);
        let open = Self::lookup(pairs, LocalKey::OPEN);
        let resend = Self::lookup(pairs, LocalKey::RESEND);
        let throw = Self::lookup(pairs, LocalKey::THROW);
        match (up, down, left, right, open, resend, throw) {
            (
                Some(up),
                Some(down),
                Some(left),
                Some(right),
                Some(open),
                Some(resend),
                Some(throw),
            ) => Ok(KeyMap { up, down, left, right, open, resend, throw }),
            (None, _, _, _, _, _, _) => Err(KeyMapError::MissingMapping(LocalKey::UP)),
            (_, None, _, _, _, _, _) => Err(KeyMapError::MissingMapping(LocalKey::DOWN)),
            (_, _, None, _, _, _, _) => Err(KeyMapError::MissingMapping(LocalKey::LEFT)),
            (_, _, _, None, _, _, _) => Err(KeyMapError::MissingMapping(LocalKey::RIGHT)),
            (_, _, _, _, None, _, _) => Err(KeyMapError::MissingMapping(LocalKey::OPEN)),
            (_, _, _, _, _, None, _) => Err(KeyMapError::MissingMapping(LocalKey::RESEND)),
            (_, _, _, _, _, _, None) => Err(KeyMapError::MissingMapping(LocalKey::THROW)),
        }
    }

    fn lookup(pairs: &Vec<(LocalKey, Input)>, k: LocalKey) -> (r: Option<Input>)
        ensures
            r == Self::spec_lookup(pairs@, k),
    {
        let n = pairs.len();
        let mut i: usize = 0;
        assert(pairs@.skip(0) =~= pairs@);
        while i < n
            invariant
                i <= n,
                n == pairs@.len(),
                Self::spec_lookup(pairs@, k) == Self::spec_lookup(pairs@.skip(i as int), k),
            decreases n - i,
        {
            assert(pairs@.skip(i as int)[0] == pairs@[i as int]);
            if pairs[i].0 == k {
                return Some(pairs[i].1);
            }
            assert(pairs@.skip(i as int).drop_first() =~= pairs@.skip(i + 1));
            i = i + 1;
        }
        assert(pairs@.skip(n as int) =~= Seq::<(LocalKey, Input)>::empty());
        None
    }
}

} // verus!
