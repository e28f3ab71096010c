//! Weapons: the kinds the player can carry and the selection among them.
use vstd::prelude::*;

verus! {

/// The weapons the player can wield.
#[derive(Debug, Clone, Copy, PartialEq, Eq, Structural)]
pub enum WeaponType {
    BasicBlaster,
    Shotgun,
    AntiGravityCannon,
    ChainLightning,
    SeekingExplosive,
    ImplosionLauncher,
    FractalCannon,
    LaserCannon,
    LargeBodyLauncher,
}

/// The weapons offered to the player, in cycling order.
pub open spec fn default_loadout() -> Seq<WeaponType> {
    seq![
        WeaponType::BasicBlaster,
        WeaponType::Shotgun,
        WeaponType::AntiGravityCannon,
        WeaponType::ChainLightning,
        WeaponType::SeekingExplosive,
        WeaponType::ImplosionLauncher,
        WeaponType::FractalCannon,
        WeaponType::LaserCannon,
        WeaponType::LargeBodyLauncher,
    ]
}

/// Index after cycling forward from `i` among `n` weapons.
pub open spec fn next_index(i: int, n: int) -> int
    recommends
        n > 0,
{
    (i + 1) % n
}

/// Index after cycling backward from `i` among `n` weapons.
pub open spec fn prev_index(i: int, n: int) -> int
    recommends
        n > 0,
{
    if i == 0 {
        n - 1
    } else {
        i - 1
    }
}

/// Index of the first occurrence of `w` in `s`, when there is one.
pub open spec fn first_index_of(s: Seq<WeaponType>, w: WeaponType, k: int) -> bool {
    0 <= k < s.len() && s[k] == w && forall|j: int| 0 <= j < k ==> s[j] != w
}

/// Which weapon the player holds among the weapons available.
#[derive(Debug, PartialEq)]
pub struct WeaponManager {
    available_weapons: Vec<WeaponType>,
    current_weapon_index: usize,
}

impl WeaponManager {
    /// The nine weapons of the default loadout are offered, in cycling
    /// order, and the selection lies among them.
    #[verifier::type_invariant]
    pub closed spec fn wf(self) -> bool {
        &&& self.available_weapons@ == default_loadout()
        &&& self.current_weapon_index < self.available_weapons@.len()
    }

    /// The weapons offered, in cycling order.
    pub closed spec fn weapons(&self) -> Seq<WeaponType> {
        self.available_weapons@
    }

    /// Position of the held weapon in `weapons()`.
    pub closed spec fn index(&self) -> nat {
        self.current_weapon_index as nat
    }

    /// The held weapon.
    pub closed spec fn held(&self) -> WeaponType {
        self.available_weapons@[self.current_weapon_index as int]
    }

    /// A well-formed manager offers the nine weapons of the default
    /// loadout and holds `weapons()[index()]`.
    pub proof fn lemma_wf(&self)
        requires
            self.wf(),
        ensures
            self.weapons() == default_loadout(),
            self.weapons().len() == 9,
            self.index() < self.weapons().len(),
            self.held() == self.weapons()[self.index() as int],
    {
    }

    /// All nine weapons, holding the basic blaster.
    pub fn new() -> (m: WeaponManager)
        ensures
            m.weapons() == default_loadout(),
            m.index() == 0,
            m.held() == WeaponType::BasicBlaster,
    {
        let available_weapons = vec![
            WeaponType::BasicBlaster,
            WeaponType::Shotgun,
            WeaponType::AntiGravityCannon,
            WeaponType::ChainLightning,
            WeaponType::SeekingExplosive,
            WeaponType::ImplosionLauncher,
            WeaponType::FractalCannon,
            WeaponType::LaserCannon,
            WeaponType::LargeBodyLauncher,
        ];
        assert(available_weapons@ =~= default_loadout());
        WeaponManager { available_weapons, current_weapon_index: 0 }
    }

    /// The held weapon.
    pub fn current_weapon(&self) -> (w: WeaponType)
        ensures
            w == self.held(),
    {
        proof {
            use_type_invariant(self);
        }
        self.available_weapons[self.current_weapon_index]
    }

    /// Position of the held weapon among the weapons offered.
    pub fn current_weapon_index(&self) -> (i: usize)
        ensures
            i == self.index(),
    {
        self.current_weapon_index
    }

    /// The weapons offered, in cycling order.
    pub fn available_weapons(&self) -> (r: &Vec<WeaponType>)
        ensures
            r@ == self.weapons(),
    {
        &self.available_weapons
    }

    /// Selects a weapon by kind, when it is offered; otherwise nothing
    /// changes.
    pub fn switch_weapon(&mut self, weapon_type: WeaponType)
        ensures
            final(self).weapons() == old(self).weapons(),
            old(self).weapons().contains(weapon_type) ==> first_index_of(
                old(self).weapons(),
                weapon_type,
                final(self).index() as int,
            ) && final(self).held() == weapon_type,
            !old(self).weapons().contains(weapon_type) ==> final(self).index() == old(self).index()
                && final(self).held() == old(self).held(),
    {
        proof {
            use_type_invariant(&*self);
        }
        let mut k: usize = 0;
        while k < self.available_weapons.len()
            invariant
                k <= self.available_weapons@.len(),
                self.available_weapons@ == default_loadout(),
                forall|j: int| 0 <= j < k ==> self.available_weapons@[j] != weapon_type,
                *self == *old(self),
            decreases self.available_weapons@.len() - k,
        {
            if self.available_weapons[k] == weapon_type {
                self.current_weapon_index = k;
                return;
            }
            k = k + 1;
        }
    }

    /// Selects the next weapon, wrapping around after the last.
    pub fn cycle_weapon(&mut self)
        ensures
            final(self).weapons() == old(self).weapons(),
            final(self).index() == next_index(old(self).index() as int, old(self).weapons().len() as int),
    {
        proof {
            use_type_invariant(&*self);
        }
        let n = self.available_weapons.len();
        self.current_weapon_index = (self.current_weapon_index + 1) % n;
    }

    /// Selects the previous weapon, wrapping around before the first.
    pub fn cycle_weapon_backward(&mut self)
        ensures
            final(self).weapons() == old(self).weapons(),
            final(self).index() == prev_index(old(self).index() as int, old(self).weapons().len() as int),
    {
        proof {
            use_type_invariant(&*self);
        }
        if self.current_weapon_index == 0 {
            self.current_weapon_index = self.available_weapons.len() - 1;
        } else {
            self.current_weapon_index = self.current_weapon_index - 1;
        }
    }
}

/// Every manager offers the nine weapons: cycling backward undoes cycling
/// forward and back, and nine forward cycles come back to the weapon one
/// started from.
pub proof fn lemma_nine_cycles(m: &WeaponManager)
    requires
        m.wf(),
    ensures
        m.weapons().len() == 9,
        prev_index(next_index(m.index() as int, 9), 9) == m.index(),
        next_index(prev_index(m.index() as int, 9), 9) == m.index(),
        cycle_forward(m.index() as int, 9, 9) == m.index(),
{
    m.lemma_wf();
    lemma_cycle_round_trip(m.index() as int, 9);
    lemma_cycle_steps(m.index() as int, 9, 9);
}

/// Cycling backward undoes cycling forward, and cycling forward undoes
/// cycling backward.
pub proof fn lemma_cycle_round_trip(i: int, n: int)
    requires
        0 <= i < n,
    ensures
        prev_index(next_index(i, n), n) == i,
        next_index(prev_index(i, n), n) == i,
{
    if i + 1 < n {
        assert((i + 1) % n == i + 1) by (nonlinear_arith)
            requires 0 <= i, i + 1 < n;
    } else {
        assert((i + 1) % n == 0) by (nonlinear_arith)
            requires 0 <= i, i + 1 == n;
    }
    if i == 0 {
        assert(((n - 1) + 1) % n == 0) by (nonlinear_arith)
            requires n > 0;
    } else {
        assert(((i - 1) + 1) % n == i) by (nonlinear_arith)
            requires 0 < i < n;
    }
}

/// Index after cycling forward `k` times from `i`.
pub open spec fn cycle_forward(i: int, n: int, k: nat) -> int
    decreases k,
{
    if k == 0 {
        i
    } else {
        next_index(cycle_forward(i, n, (k - 1) as nat), n)
    }
}

/// After `k` forward steps from `i` the index is `(i + k) % n`; in
/// particular, cycling forward once per weapon comes back to the weapon
/// one started from.
pub proof fn lemma_cycle_steps(i: int, n: int, k: nat)
    requires
        0 <= i < n,
    ensures
        cycle_forward(i, n, k) == (i + k) % n,
        cycle_forward(i, n, n as nat) == i,
{
    lemma_cycle_steps_inner(i, n, k);
    lemma_cycle_steps_inner(i, n, n as nat);
    assert((i + n) % n == i) by (nonlinear_arith)
        requires 0 <= i < n;
}

proof fn lemma_cycle_steps_inner(i: int, n: int, k: nat)
    requires
        0 <= i < n,
    ensures
        cycle_forward(i, n, k) == (i + k) % n,
    decreases k,
{
    if k == 0 {
        assert(i % n == i) by (nonlinear_arith)
            requires 0 <= i < n;
    } else {
        lemma_cycle_steps_inner(i, n, (k - 1) as nat);
        vstd::arithmetic::div_mod::lemma_add_mod_noop(i + k - 1, 1, n);
        assert(1int % n == 1 || n == 1) by (nonlinear_arith)
            requires n > 0;
        if n == 1 {
            assert((i + k) % n == 0) by (nonlinear_arith) requires n == 1;
            assert(((i + k - 1) % n + 1) % n == 0) by (nonlinear_arith) requires n == 1;
        }
    }
}

/// The loadout offers every kind of weapon exactly once, so cycling
/// reaches each of the nine distinct weapons.
pub proof fn lemma_loadout_complete(w: WeaponType)
    ensures
        default_loadout().contains(w),
        default_loadout().no_duplicates(),
        default_loadout().len() == 9,
{
    let d = default_loadout();
    match w {
        WeaponType::BasicBlaster => assert(d[0] == w),
        WeaponType::Shotgun => assert(d[1] == w),
        WeaponType::AntiGravityCannon => assert(d[2] == w),
        WeaponType::ChainLightning => assert(d[3] == w),
        WeaponType::SeekingExplosive => assert(d[4] == w),
        WeaponType::ImplosionLauncher => assert(d[5] == w),
        WeaponType::FractalCannon => assert(d[6] == w),
        WeaponType::LaserCannon => assert(d[7] == w),
        WeaponType::LargeBodyLauncher => assert(d[8] == w),
    }
}

} // verus!
