//! The board model: the validated representation of a set of hardware
//! platforms, shared by both code generation backends.
//!
//! Ordered name sets and name-keyed maps are sorted vectors (see `kvmap`), so
//! every walk over the model is deterministic.  The keyed-list sections of
//! the input (boards, LEDs, buttons, UARTs) appear here as ordered vectors
//! whose elements carry their former key as a `name` field.

use vstd::prelude::*;

verus! {

/// A value that is either one string or a list of strings.
#[derive(Debug, Clone, PartialEq, Eq, Hash)]
pub enum StringOrVecString {
    String(String),
    VecString(Vec<String>),
}

/// Spec-level mirror of `StringOrVecString`.
pub enum StrOrStrs {
    One(Seq<char>),
    Many(Seq<Seq<char>>),
}

impl DeepView for StringOrVecString {
    type V = StrOrStrs;

    open spec fn deep_view(&self) -> StrOrStrs {
        match self {
            StringOrVecString::String(s) => StrOrStrs::One(s@),
            StringOrVecString::VecString(v) => StrOrStrs::Many(v.deep_view()),
        }
    }
}

/// What pushing a string onto a `StringOrVecString` yields: a single string
/// becomes a two-element list, a list grows by one.
pub open spec fn spec_sovs_push(v: StrOrStrs, s: Seq<char>) -> StrOrStrs {
    match v {
        StrOrStrs::One(s1) => StrOrStrs::Many(seq![s1, s]),
        StrOrStrs::Many(ss) => StrOrStrs::Many(ss.push(s)),
    }
}

impl StringOrVecString {
    /// Appends one more string: a single string turns into a two-element
    /// list first.
    pub fn push(&mut self, s: String)
        ensures
            final(self).deep_view() == spec_sovs_push(old(self).deep_view(), s@),
    {
        match self {
            StringOrVecString::String(s1) => {
                let mut v: Vec<String> = Vec::new();
                v.push(s1.clone());
                v.push(s);
                proof {
                    assert(v.deep_view() =~= seq![old(self)->String_0@, v@[1]@]);
                }
                *self = StringOrVecString::VecString(v);
            },
            StringOrVecString::VecString(v) => {
                let ghost v0 = v.deep_view();
                v.push(s);
                proof {
                    assert(v.deep_view() =~= v0.push(v@[v@.len() - 1]@));
                }
            },
        }
    }
}

/// A copy of a string vector whose contents are known equal.
pub fn clone_string_vec(v: &Vec<String>) -> (r: Vec<String>)
    ensures
        r.deep_view() == v.deep_view(),
        r@.len() == v@.len(),
        forall|i: int| 0 <= i < v@.len() ==> r@[i]@ == (#[trigger] v@[i]@),
{
    let mut r: Vec<String> = Vec::new();
    let mut i: usize = 0;
    while i < v.len()
        invariant
            i <= v@.len(),
            r@.len() == i,
            forall|j: int| 0 <= j < i ==> r@[j]@ == (#[trigger] v@[j]@),
        decreases v@.len() - i,
    {
        let e = &v[i];
        r.push(e.clone());
        i += 1;
    }
    proof {
        assert(r.deep_view() =~= v.deep_view());
    }
    r
}

/// A copy of a key/value string vector whose contents are known equal.
pub fn clone_string_pairs(v: &Vec<(String, String)>) -> (r: Vec<(String, String)>)
    ensures
        crate::kvmap::kv_view(r@) == crate::kvmap::kv_view(v@),
{
    let mut r: Vec<(String, String)> = Vec::new();
    let mut i: usize = 0;
    while i < v.len()
        invariant
            i <= v@.len(),
            r@.len() == i,
            forall|j: int|
                0 <= j < i ==> r@[j].0@ == (#[trigger] v@[j].0@) && r@[j].1@ == v@[j].1@,
        decreases v@.len() - i,
    {
        let e = &v[i];
        r.push((e.0.clone(), e.1.clone()));
        i += 1;
    }
    proof {
        crate::kvmap::lemma_kv_view_index(r@);
        crate::kvmap::lemma_kv_view_index(v@);
        assert(crate::kvmap::kv_view(r@) =~= crate::kvmap::kv_view(v@));
    }
    r
}

impl StringOrVecString {
    /// A copy whose contents are known equal.
    pub fn clone_value(&self) -> (r: StringOrVecString)
        ensures
            r.deep_view() == self.deep_view(),
    {
        match self {
            StringOrVecString::String(s) => StringOrVecString::String(s.clone()),
            StringOrVecString::VecString(v) => StringOrVecString::VecString(clone_string_vec(v)),
        }
    }
}

/// An LED peripheral: a name, a pin, and optional colour and inversion.
#[derive(Debug, Clone, PartialEq, Eq, Hash)]
pub struct Led {
    pub name: String,
    pub pin: String,
    pub color: Option<String>,
    pub inverted: Option<bool>,
}

/// A button peripheral: a name, a pin, and an optional active-low flag.
#[derive(Debug, Clone, PartialEq, Eq, Hash)]
pub struct Button {
    pub name: String,
    pub pin: String,
    pub active_low: Option<bool>,
}

/// A UART peripheral requirement: pins by symbolic name.
#[derive(Debug, Clone, PartialEq, Eq, Hash)]
pub struct Uart {
    pub name: Option<String>,
    pub rx_pin: String,
    pub tx_pin: String,
    pub cts_pin: Option<String>,
    pub rts_pin: Option<String>,
}

/// The level a pin is driven to; `High` where the input says nothing.
#[derive(Debug, Clone, Copy, PartialEq, Eq, Hash, Default)]
pub enum PinLevel {
    #[default]
    High,
    Low,
}

/// One pin-initialization quirk: drive `pin` to `level` at startup.
#[derive(Debug, Clone, PartialEq, Eq, Hash)]
pub struct SetPinOp {
    pub description: Option<String>,
    pub pin: String,
    pub level: PinLevel,
}

/// A declarative patch applied during code generation; applied in
/// declaration order.
#[derive(Debug, Clone, PartialEq, Eq, Hash)]
pub enum Quirk {
    SetPin(SetPinOp),
}

/// Debugger information of a board; the debugger may expose a UART.
#[derive(Debug, Clone, PartialEq, Eq, Hash)]
pub struct Debugger {
    pub type_: String,
    pub uart: Option<Uart>,
}

/// The first backend's global section: which chips it supports.
#[derive(Debug, Clone, PartialEq, Eq, Hash, Default)]
pub struct Ariel {
    pub chips: Option<Vec<String>>,
}

/// The first backend's per-board extension payload.  `flags` is a sorted name
/// set and `global_env` a sorted name-keyed map.
#[derive(Debug, Clone, PartialEq, Eq, Hash, Default)]
pub struct ArielBoardExt {
    pub flags: Vec<String>,
    pub global_env: Vec<(String, StringOrVecString)>,
    pub swi: Option<String>,
}

/// The second backend's per-board extension payload.
#[derive(Debug, Clone, PartialEq, Eq, Hash, Default)]
pub struct RiotBoardExt {
}

/// A literal source snippet a chip contributes to one generated file.
#[derive(Debug, Clone, PartialEq, Eq, Hash, Default)]
pub struct RiotQirkEntry {
    pub body: Vec<String>,
}

/// One UART instance a chip offers: fixed configuration fragments and an
/// optional interrupt-service-routine name.  `config` is a sorted map.
#[derive(Debug, Clone, PartialEq, Eq, Hash, Default)]
pub struct RiotChipUartPeripheral {
    pub config: Vec<(String, String)>,
    pub isr: Option<String>,
}

/// The peripheral resources a chip declares.  `uarts` is a sorted map.
#[derive(Debug, Clone, PartialEq, Eq, Hash, Default)]
pub struct RiotChipPeripherals {
    pub uarts: Vec<(String, RiotChipUartPeripheral)>,
}

/// Per-chip metadata of the second backend.  `quirks` is a map from target
/// filename to contributed snippets, sorted by filename.
#[derive(Debug, Clone, PartialEq, Eq, Hash, Default)]
pub struct RiotChipMapEntry {
    pub cpu: String,
    pub cpu_model: String,
    pub quirks: Vec<(String, RiotQirkEntry)>,
    pub peripherals: Option<RiotChipPeripherals>,
}

/// The second backend's global section: its chip catalog, a sorted map.
#[derive(Debug, Clone, PartialEq, Eq, Hash, Default)]
pub struct Riot {
    pub chips: Vec<(String, RiotChipMapEntry)>,
}

/// One target hardware platform.
#[derive(Debug, Clone, PartialEq, Eq, Hash)]
pub struct Board {
    pub name: String,
    pub chip: String,
    pub description: Option<String>,
    pub flags: Vec<String>,
    pub quirks: Vec<Quirk>,
    pub ariel: ArielBoardExt,
    pub riot: RiotBoardExt,
    pub debugger: Option<Debugger>,
    pub leds: Option<Vec<Led>>,
    pub buttons: Option<Vec<Button>>,
    pub uarts: Option<Vec<Uart>>,
}

impl Board {
    /// Whether the board declares at least one LED.
    pub fn has_leds(&self) -> (r: bool)
        ensures
            r == (self.leds is Some && self.leds->0@.len() > 0),
    {
        if let Some(leds) = &self.leds {
            !leds.is_empty()
        } else {
            false
        }
    }

    /// Whether the board declares at least one button.
    pub fn has_buttons(&self) -> (r: bool)
        ensures
            r == (self.buttons is Some && self.buttons->0@.len() > 0),
    {
        if let Some(buttons) = &self.buttons {
            !buttons.is_empty()
        } else {
            false
        }
    }
}

/// The whole merged description: global sections plus the boards, in
/// lexicographic order of their names.
#[derive(Debug, Clone, PartialEq, Eq, Hash)]
pub struct SbdFile {
    pub description: Option<String>,
    pub boards: Option<Vec<Board>>,
    pub ariel: Option<Ariel>,
    pub riot: Option<Riot>,
}

} // verus!
