//! The first code generation backend: turns the board model into a board
//! support package — per-board source modules, a dispatch module, a build
//! helper, a build-description file and a package manifest.
//!
//! Boards whose chip the backend's catalog does not declare are left out of
//! every generated file; each such board costs one warning, never an error.

use vstd::prelude::*;

pub use crate::filemap::Mode;
pub use crate::filemap::parse_mode;
pub use crate::model::Ariel;
pub use crate::model::ArielBoardExt;

use crate::krate::{Crate, Dependency, DependencyFull, StringOrWorkspace};
use crate::kvmap::{kv_insert, kv_insert_all, kv_sorted, kv_view, strs_insert, strs_insert_all,
    strs_sorted};
use crate::laze::{LazeContext, LazeFile, spec_env, spec_laze_context, spec_name_set};
use crate::model::{Board, PinLevel, Quirk, SbdFile, SetPinOp, StrOrStrs, StringOrVecString};

verus! {

/// What the generate subcommand of this backend is given: the fragment
/// directory, the reconcile mode, and the output directory.
#[derive(Debug, Clone, PartialEq, Eq)]
pub struct GenerateArielArgs {
    pub sbd_dir: String,
    pub mode: Option<Mode>,
    pub output: String,
}

/// Whether some string of `list` holds the characters `k`.
pub open spec fn str_in(list: Seq<String>, k: Seq<char>) -> bool {
    exists|i: int| 0 <= i < list.len() && list[i]@ == k
}

/// Whether some string of `list` equals `k`.
pub fn str_vec_contains(list: &Vec<String>, k: &str) -> (r: bool)
    ensures
        r == str_in(list@, k@),
{
    let mut i: usize = 0;
    while i < list.len()
        invariant
            i <= list@.len(),
            forall|j: int| 0 <= j < i ==> (#[trigger] list@[j]@) != k@,
        decreases list@.len() - i,
    {
        let e = &list[i];
        if crate::strutil::str_eq(e.as_str(), k) {
            return true;
        }
        i += 1;
    }
    false
}

/// The chips this backend's catalog declares.
pub open spec fn spec_ariel_chips(sbd: SbdFile) -> Seq<String> {
    match sbd.ariel {
        Some(a) => match a.chips {
            Some(c) => c@,
            None => Seq::empty(),
        },
        None => Seq::empty(),
    }
}

/// The boards of the model.
pub open spec fn spec_boards(sbd: SbdFile) -> Seq<Board> {
    match sbd.boards {
        Some(b) => b@,
        None => Seq::empty(),
    }
}

/// The boards whose chip the catalog declares, in model order.
pub open spec fn spec_retained(boards: Seq<Board>, chips: Seq<String>) -> Seq<Board>
    decreases boards.len(),
{
    if boards.len() == 0 {
        Seq::empty()
    } else {
        spec_retained(boards.drop_last(), chips) + (if str_in(chips, boards.last().chip@) {
            seq![boards.last()]
        } else {
            Seq::empty()
        })
    }
}

/// Every retained board's chip is in the catalog; a board whose chip the
/// catalog lacks never appears among the retained boards.
pub proof fn lemma_retained_chips_known(boards: Seq<Board>, chips: Seq<String>)
    ensures
        forall|j: int|
            0 <= j < spec_retained(boards, chips).len() ==> str_in(
                chips,
                #[trigger] spec_retained(boards, chips)[j].chip@,
            ),
        forall|b: Board|
            (#[trigger] spec_retained(boards, chips).contains(b)) ==> str_in(chips, b.chip@),
    decreases boards.len(),
{
    let r = spec_retained(boards, chips);
    if boards.len() > 0 {
        lemma_retained_chips_known(boards.drop_last(), chips);
        let rp = spec_retained(boards.drop_last(), chips);
        assert forall|j: int| 0 <= j < r.len() implies str_in(chips, #[trigger] r[j].chip@) by {
            if str_in(chips, boards.last().chip@) {
                if j < rp.len() {
                    assert(r[j] == rp[j]);
                    assert(str_in(chips, rp[j].chip@));
                } else {
                    assert(r[j] == boards.last());
                }
            } else {
                assert(r =~= rp);
                assert(r[j] == rp[j]);
                assert(str_in(chips, rp[j].chip@));
            }
        }
    }
    assert forall|b: Board| (#[trigger] r.contains(b)) implies str_in(chips, b.chip@) by {
        let j = choose|j: int| 0 <= j < r.len() && r[j] == b;
        assert(str_in(chips, r[j].chip@));
    }
}

/// One step of the retained filter.
proof fn lemma_retained_step(boards: Seq<Board>, chips: Seq<String>, i: int)
    requires
        0 <= i < boards.len(),
    ensures
        spec_retained(boards.take(i + 1), chips) == spec_retained(boards.take(i), chips) + (
        if str_in(chips, boards[i].chip@) {
            seq![boards[i]]
        } else {
            Seq::<Board>::empty()
        }),
{
    assert(boards.take(i + 1).drop_last() =~= boards.take(i));
    assert(boards.take(i + 1).last() == boards[i]);
}

/// The text of one pin-initialization quirk in the init routine: take the
/// pin, drive it, and deliberately forget the handle so the configuration
/// outlives the routine.
pub open spec fn spec_set_pin(op: SetPinOp) -> Seq<char> {
    "{\n"@ + (match op.description {
        Some(d) => "    // "@ + d@ + "\n"@,
        None => Seq::empty(),
    }) + "    let pin = peripherals."@ + op.pin@ + ".take().unwrap();\n"@
        + "    let output = ariel_os_hal::gpio::Output::new(pin, "@ + (match op.level {
        PinLevel::High => "ariel_os_embassy_common::gpio::Level::High"@,
        PinLevel::Low => "ariel_os_embassy_common::gpio::Level::Low"@,
    }) + ");\n"@ + "    core::mem::forget(output);\n"@ + "}\n"@
}

/// The text one quirk contributes to the init routine.
pub open spec fn spec_quirk(q: Quirk) -> Seq<char> {
    match q {
        Quirk::SetPin(op) => spec_set_pin(op),
    }
}

/// The init routine body: every quirk applied, in declaration order.
pub open spec fn spec_quirks_body(qs: Seq<Quirk>) -> Seq<char>
    decreases qs.len(),
{
    if qs.len() == 0 {
        Seq::empty()
    } else {
        spec_quirks_body(qs.drop_last()) + spec_quirk(qs.last())
    }
}

/// One LED line of the peripheral block.
pub open spec fn spec_led_line(l: crate::model::Led) -> Seq<char> {
    l.name@ + ": "@ + l.pin@ + ",\n"@
}

/// The LED lines, in declaration order.
pub open spec fn spec_led_lines(leds: Seq<crate::model::Led>) -> Seq<char>
    decreases leds.len(),
{
    if leds.len() == 0 {
        Seq::empty()
    } else {
        spec_led_lines(leds.drop_last()) + spec_led_line(leds.last())
    }
}

/// One button line of the peripheral block.
pub open spec fn spec_button_line(b: crate::model::Button) -> Seq<char> {
    b.name@ + ": "@ + b.pin@ + ",\n"@
}

/// The button lines, in declaration order.
pub open spec fn spec_button_lines(buttons: Seq<crate::model::Button>) -> Seq<char>
    decreases buttons.len(),
{
    if buttons.len() == 0 {
        Seq::empty()
    } else {
        spec_button_lines(buttons.drop_last()) + spec_button_line(buttons.last())
    }
}

/// The LED peripheral block of one board, gated to its build context.
pub open spec fn spec_led_pins(board: Seq<char>, leds: Seq<crate::model::Led>) -> Seq<char> {
    "#[cfg(context = \""@ + board + "\")]\n"@
        + "ariel_os_hal::define_peripherals!(LedPeripherals {\n"@ + spec_led_lines(leds)
        + "});\n"@
}

/// The button peripheral block of one board, gated to its build context.
pub open spec fn spec_button_pins(board: Seq<char>, buttons: Seq<crate::model::Button>) -> Seq<
    char,
> {
    "#[cfg(context = \""@ + board + "\")]\n"@
        + "ariel_os_hal::define_peripherals!(ButtonPeripherals {\n"@ + spec_button_lines(
        buttons,
    ) + "});\n"@
}

/// The pins module of one board: the peripheral blocks where the board has
/// LEDs or buttons, an empty module otherwise.
pub open spec fn spec_pins(b: Board) -> Seq<char> {
    "pub mod pins {\n"@ + (if (b.leds is Some && b.leds->0@.len() > 0) || (b.buttons is Some
        && b.buttons->0@.len() > 0) {
        "use ariel_os_hal::hal::peripherals;\n\n"@ + (match b.leds {
            Some(leds) => spec_led_pins(b.name@, leds@),
            None => Seq::empty(),
        }) + (match b.buttons {
            Some(buttons) => spec_button_pins(b.name@, buttons@),
            None => Seq::empty(),
        })
    } else {
        Seq::empty()
    }) + "}\n"@
}

/// The source module of one board: its pins module and its init routine.
pub open spec fn spec_board_rs(b: Board) -> Seq<char> {
    "// @generated\n\n"@ + spec_pins(b) + "\n#[allow(unused_variables)]\n"@
        + "pub fn init(peripherals: &mut ariel_os_hal::hal::OptionalPeripherals) {\n"@
        + spec_quirks_body(b.quirks@) + "}\n"@
}

/// One arm of the dispatch chain.
pub open spec fn spec_dispatch_arm(b: Board) -> Seq<char> {
    " if #[cfg(context = \""@ + b.name@ + "\")] {\n"@ + "        inclu"@ + "de!(\""@ + b.name@
        + ".rs\");\n"@ + "    } else"@
}

/// The arms of the dispatch chain, one per retained board.
pub open spec fn spec_dispatch_arms(boards: Seq<Board>) -> Seq<char>
    decreases boards.len(),
{
    if boards.len() == 0 {
        Seq::empty()
    } else {
        spec_dispatch_arms(boards.drop_last()) + spec_dispatch_arm(boards.last())
    }
}

/// The dispatch chain, closed by a no-op stub for an unmatched context.
pub open spec fn spec_boards_dispatch(boards: Seq<Board>) -> Seq<char> {
    "cfg_if::cfg_if! {\n   "@ + spec_dispatch_arms(boards) + " {\n"@
        + "        // no board context selected\n"@ + "    }\n"@ + "}\n"@
}

/// One build-context registration line of the build helper.
pub open spec fn spec_build_line(b: Board) -> Seq<char> {
    "    println!(\"cargo::rustc-check-cfg=cfg(context, values(\\\""@ + b.name@
        + "\\\"))\");\n"@
}

/// The build-context registration lines, one per retained board.
pub open spec fn spec_build_lines(boards: Seq<Board>) -> Seq<char>
    decreases boards.len(),
{
    if boards.len() == 0 {
        Seq::empty()
    } else {
        spec_build_lines(boards.drop_last()) + spec_build_line(boards.last())
    }
}

/// The build helper: registers every retained board's name as a legal
/// build-context value.
pub open spec fn spec_build_rs(boards: Seq<Board>) -> Seq<char> {
    "// @generated\n"@ + "pub fn main() {\n"@ + spec_build_lines(boards) + "}\n"@
}

/// The crate root of the generated package.
pub open spec fn spec_lib_rs(boards: Seq<Board>) -> Seq<char> {
    "// @generated\n\n#![no_std]\n\n"@ + spec_boards_dispatch(boards)
}

/// The features a board provides: its own flags, its backend extension
/// flags, `has_leds` and `has_buttons` as its peripherals warrant, and
/// `has_swi` where a software interrupt is set — one sorted set.
pub open spec fn spec_board_provides(b: Board) -> Seq<Seq<char>> {
    let f1 = strs_insert_all(Seq::empty(), b.flags.deep_view());
    let f2 = strs_insert_all(f1, b.ariel.flags.deep_view());
    let f3 = if b.leds is Some && b.leds->0@.len() > 0 {
        strs_insert(f2, "has_leds"@)
    } else {
        f2
    };
    let f4 = if b.buttons is Some && b.buttons->0@.len() > 0 {
        strs_insert(f3, "has_buttons"@)
    } else {
        f3
    };
    if b.ariel.swi is Some {
        strs_insert(f4, "has_swi"@)
    } else {
        f4
    }
}

/// The environment a board contributes: the software-interrupt setting
/// under `CARGO_ENV`, then the board's global environment on top of it.
pub open spec fn spec_board_env(b: Board) -> Seq<(Seq<char>, StrOrStrs)> {
    let base: Seq<(Seq<char>, StrOrStrs)> = match b.ariel.swi {
        Some(swi) => seq![
            ("CARGO_ENV"@, StrOrStrs::Many(seq!["CONFIG_SWI="@ + swi@])),
        ],
        None => Seq::empty(),
    };
    kv_insert_all(base, kv_view(b.ariel.global_env@))
}

/// The build-description entry of one retained board.
pub open spec fn spec_builder_entry(b: Board) -> Seq<char> {
    ("- name: "@ + b.name@ + "\n"@ + ("  parent: "@ + b.chip@ + "\n"@)) + spec_name_set(
        "provides"@,
        spec_board_provides(b),
    ) + spec_name_set("requires"@, Seq::empty()) + spec_name_set("selects"@, Seq::empty()) + (
    if spec_board_env(b).len() == 0 {
        Seq::<char>::empty()
    } else {
        "  env:\n"@ + spec_env(spec_board_env(b))
    })
}

/// The builder entries, one per retained board, in order.
pub open spec fn spec_builder_entries(boards: Seq<Board>) -> Seq<char>
    decreases boards.len(),
{
    if boards.len() == 0 {
        Seq::empty()
    } else {
        spec_builder_entries(boards.drop_last()) + spec_builder_entry(boards.last())
    }
}

/// The build-description file: one builder entry per retained board.
pub open spec fn spec_ariel_laze(boards: Seq<Board>) -> Seq<char> {
    "# yamllint disable-file\n\n"@ + ("builders:\n"@ + spec_builder_entries(boards))
}

/// Appends one pin-initialization quirk to the init routine body.
#[verifier::rlimit(60)]
fn handle_set_bin_op(set_pin_op: &SetPinOp, init_body: &mut String)
    ensures
        final(init_body)@ == old(init_body)@ + spec_set_pin(*set_pin_op),
{
    let ghost base = init_body@;
    init_body.append("{\n");
    if let Some(description) = &set_pin_op.description {
        init_body.append("    // ");
        init_body.append(description.as_str());
        init_body.append("\n");
    }
    let ghost c1 = init_body@;
    proof {
        assert(c1 =~= base + ("{\n"@ + (match &set_pin_op.description {
            Some(d) => "    // "@ + d@ + "\n"@,
            None => Seq::<char>::empty(),
        })));
    }
    init_body.append("    let pin = peripherals.");
    init_body.append(set_pin_op.pin.as_str());
    init_body.append(".take().unwrap();\n");
    init_body.append("    let output = ariel_os_hal::gpio::Output::new(pin, ");
    match set_pin_op.level {
        PinLevel::High => {
            init_body.append("ariel_os_embassy_common::gpio::Level::High");
        },
        PinLevel::Low => {
            init_body.append("ariel_os_embassy_common::gpio::Level::Low");
        },
    }
    init_body.append(");\n");
    init_body.append("    core::mem::forget(output);\n");
    init_body.append("}\n");
    proof {
        assert(init_body@ =~= base + spec_set_pin(*set_pin_op));
    }
}

/// Appends every quirk of the board to the init routine body, in
/// declaration order.
fn handle_quirks(board: &Board, init_body: &mut String)
    ensures
        final(init_body)@ == old(init_body)@ + spec_quirks_body(board.quirks@),
{
    let ghost base = init_body@;
    let n = board.quirks.len();
    let mut i: usize = 0;
    proof {
        assert(board.quirks@.take(0) =~= Seq::<Quirk>::empty());
        assert(init_body@ =~= base + spec_quirks_body(board.quirks@.take(0)));
    }
    while i < n
        invariant
            i <= n,
            n == board.quirks@.len(),
            init_body@ == base + spec_quirks_body(board.quirks@.take(i as int)),
        decreases n - i,
    {
        proof {
            crate::strutil::lemma_take_push(board.quirks@, i as int);
            assert(board.quirks@.take(i + 1).drop_last() =~= board.quirks@.take(i as int));
            assert(board.quirks@.take(i + 1).last() == board.quirks@[i as int]);
        }
        let q = &board.quirks[i];
        match q {
            Quirk::SetPin(set_pin_op) => {
                handle_set_bin_op(set_pin_op, init_body);
            },
        }
        proof {
            assert(init_body@ =~= base + spec_quirks_body(board.quirks@.take(i + 1)));
        }
        i += 1;
    }
    proof {
        assert(board.quirks@.take(n as int) =~= board.quirks@);
    }
}

/// The LED peripheral block of one board.
fn render_led_pins(board: &str, leds: &Vec<crate::model::Led>) -> (r: String)
    ensures
        r@ == spec_led_pins(board@, leds@),
{
    let mut out = String::new();
    out.append("#[cfg(context = \"");
    out.append(board);
    out.append("\")]\n");
    out.append("ariel_os_hal::define_peripherals!(LedPeripherals {\n");
    let ghost base = out@;
    let n = leds.len();
    let mut i: usize = 0;
    proof {
        assert(leds@.take(0) =~= Seq::<crate::model::Led>::empty());
        assert(out@ =~= base + spec_led_lines(leds@.take(0)));
    }
    while i < n
        invariant
            i <= n,
            n == leds@.len(),
            out@ == base + spec_led_lines(leds@.take(i as int)),
        decreases n - i,
    {
        proof {
            crate::strutil::lemma_take_push(leds@, i as int);
            assert(leds@.take(i + 1).drop_last() =~= leds@.take(i as int));
            assert(leds@.take(i + 1).last() == leds@[i as int]);
        }
        let l = &leds[i];
        out.append(l.name.as_str());
        out.append(": ");
        out.append(l.pin.as_str());
        out.append(",\n");
        proof {
            assert(out@ =~= base + spec_led_lines(leds@.take(i + 1)));
        }
        i += 1;
    }
    out.append("});\n");
    proof {
        assert(leds@.take(n as int) =~= leds@);
        assert(out@ =~= spec_led_pins(board@, leds@));
    }
    out
}

/// The button peripheral block of one board.
fn render_button_pins(board: &str, buttons: &Vec<crate::model::Button>) -> (r: String)
    ensures
        r@ == spec_button_pins(board@, buttons@),
{
    let mut out = String::new();
    out.append("#[cfg(context = \"");
    out.append(board);
    out.append("\")]\n");
    out.append("ariel_os_hal::define_peripherals!(ButtonPeripherals {\n");
    let ghost base = out@;
    let n = buttons.len();
    let mut i: usize = 0;
    proof {
        assert(buttons@.take(0) =~= Seq::<crate::model::Button>::empty());
        assert(out@ =~= base + spec_button_lines(buttons@.take(0)));
    }
    while i < n
        invariant
            i <= n,
            n == buttons@.len(),
            out@ == base + spec_button_lines(buttons@.take(i as int)),
        decreases n - i,
    {
        proof {
            crate::strutil::lemma_take_push(buttons@, i as int);
            assert(buttons@.take(i + 1).drop_last() =~= buttons@.take(i as int));
            assert(buttons@.take(i + 1).last() == buttons@[i as int]);
        }
        let b = &buttons[i];
        out.append(b.name.as_str());
        out.append(": ");
        out.append(b.pin.as_str());
        out.append(",\n");
        proof {
            assert(out@ =~= base + spec_button_lines(buttons@.take(i + 1)));
        }
        i += 1;
    }
    out.append("});\n");
    proof {
        assert(buttons@.take(n as int) =~= buttons@);
        assert(out@ =~= spec_button_pins(board@, buttons@));
    }
    out
}

/// The pins module of one board.
fn render_pins(board: &Board) -> (r: String)
    ensures
        r@ == spec_pins(*board),
{
    let mut pins = String::new();
    pins.append("pub mod pins {\n");
    if board.has_leds() || board.has_buttons() {
        pins.append("use ariel_os_hal::hal::peripherals;\n\n");
        if let Some(leds) = &board.leds {
            let block = render_led_pins(board.name.as_str(), leds);
            pins.append(block.as_str());
        }
        if let Some(buttons) = &board.buttons {
            let block = render_button_pins(board.name.as_str(), buttons);
            pins.append(block.as_str());
        }
    }
    pins.append("}\n");
    proof {
        assert(pins@ =~= spec_pins(*board));
    }
    pins
}

/// The source module of one board: its pins module and its init routine.
fn render_board_rs(board: &Board) -> (r: String)
    ensures
        r@ == spec_board_rs(*board),
{
    let mut out = String::new();
    out.append("// @generated\n\n");
    let pins = render_pins(board);
    out.append(pins.as_str());
    out.append("\n#[allow(unused_variables)]\n");
    out.append("pub fn init(peripherals: &mut ariel_os_hal::hal::OptionalPeripherals) {\n");
    handle_quirks(board, &mut out);
    out.append("}\n");
    proof {
        assert(out@ =~= spec_board_rs(*board));
    }
    out
}

/// The dispatch module for the boards of `boards` whose chip is in
/// `chips`, in model order.
fn render_boards_dispatch(boards: &Vec<Board>, chips: &Vec<String>) -> (r: String)
    ensures
        r@ == spec_boards_dispatch(spec_retained(boards@, chips@)),
{
    let mut s = String::new();
    s.append("cfg_if::cfg_if! {\n   ");
    let ghost base = s@;
    let n = boards.len();
    let mut i: usize = 0;
    proof {
        assert(boards@.take(0) =~= Seq::<Board>::empty());
        assert(s@ =~= base + spec_dispatch_arms(spec_retained(boards@.take(0), chips@)));
    }
    while i < n
        invariant
            i <= n,
            n == boards@.len(),
            s@ == base + spec_dispatch_arms(spec_retained(boards@.take(i as int), chips@)),
        decreases n - i,
    {
        proof {
            lemma_retained_step(boards@, chips@, i as int);
        }
        let board = &boards[i];
        if str_vec_contains(chips, board.chip.as_str()) {
            let ghost rp = spec_retained(boards@.take(i as int), chips@);
            s.append(" if #[cfg(context = \"");
            s.append(board.name.as_str());
            s.append("\")] {\n");
            s.append("        inclu");
            s.append("de!(\"");
            s.append(board.name.as_str());
            s.append(".rs\");\n");
            s.append("    } else");
            proof {
                let rn = spec_retained(boards@.take(i + 1), chips@);
                assert(rn =~= rp.push(boards@[i as int]));
                assert(rn.drop_last() =~= rp);
                assert(s@ =~= base + spec_dispatch_arms(rn));
            }
        } else {
            proof {
                assert(spec_retained(boards@.take(i + 1), chips@) =~= spec_retained(
                    boards@.take(i as int),
                    chips@,
                ));
            }
        }
        i += 1;
    }
    proof {
        assert(boards@.take(n as int) =~= boards@);
    }
    s.append(" {\n");
    s.append("        // no board context selected\n");
    s.append("    }\n");
    s.append("}\n");
    proof {
        assert(s@ =~= spec_boards_dispatch(spec_retained(boards@, chips@)));
    }
    s
}

/// The build helper for the boards of `boards` whose chip is in `chips`,
/// in model order.
pub fn render_build_rs(boards: &Vec<Board>, chips: &Vec<String>) -> (r: String)
    ensures
        r@ == spec_build_rs(spec_retained(boards@, chips@)),
{
    let mut out = String::new();
    out.append("// @generated\n");
    out.append("pub fn main() {\n");
    let ghost base = out@;
    let n = boards.len();
    let mut i: usize = 0;
    proof {
        assert(boards@.take(0) =~= Seq::<Board>::empty());
        assert(out@ =~= base + spec_build_lines(spec_retained(boards@.take(0), chips@)));
    }
    while i < n
        invariant
            i <= n,
            n == boards@.len(),
            out@ == base + spec_build_lines(spec_retained(boards@.take(i as int), chips@)),
        decreases n - i,
    {
        proof {
            lemma_retained_step(boards@, chips@, i as int);
        }
        let board = &boards[i];
        if str_vec_contains(chips, board.chip.as_str()) {
            let ghost rp = spec_retained(boards@.take(i as int), chips@);
            out.append("    println!(\"cargo::rustc-check-cfg=cfg(context, values(\\\"");
            out.append(board.name.as_str());
            out.append("\\\"))\");\n");
            proof {
                let rn = spec_retained(boards@.take(i + 1), chips@);
                assert(rn =~= rp.push(boards@[i as int]));
                assert(rn.drop_last() =~= rp);
                assert(out@ =~= base + spec_build_lines(rn));
            }
        } else {
            proof {
                assert(spec_retained(boards@.take(i + 1), chips@) =~= spec_retained(
                    boards@.take(i as int),
                    chips@,
                ));
            }
        }
        i += 1;
    }
    proof {
        assert(boards@.take(n as int) =~= boards@);
    }
    out.append("}\n");
    proof {
        assert(out@ =~= spec_build_rs(spec_retained(boards@, chips@)));
    }
    out
}

/// The provides set of one board's builder entry.
fn build_provides(b: &Board) -> (v: Vec<String>)
    ensures
        v.deep_view() == spec_board_provides(*b),
        strs_sorted(v.deep_view()),
{
    let mut provides: Vec<String> = Vec::new();
    let ghost fv = b.flags.deep_view();
    proof {
        assert(provides.deep_view() =~= Seq::<Seq<char>>::empty());
        assert(fv.skip(0) =~= fv);
        assert(forall|j: int| 0 <= j < b.flags@.len() ==> fv[j] == #[trigger] b.flags@[j]@);
    }
    let mut i: usize = 0;
    while i < b.flags.len()
        invariant
            i <= b.flags@.len(),
            fv == b.flags.deep_view(),
            fv.len() == b.flags@.len(),
            forall|j: int| 0 <= j < b.flags@.len() ==> fv[j] == #[trigger] b.flags@[j]@,
            strs_sorted(provides.deep_view()),
            strs_insert_all(provides.deep_view(), fv.skip(i as int)) == strs_insert_all(
                Seq::empty(),
                fv,
            ),
        decreases b.flags@.len() - i,
    {
        proof {
            assert(fv.skip(i as int)[0] == fv[i as int]);
            assert(fv.skip(i as int).skip(1) =~= fv.skip(i + 1));
        }
        let f = &b.flags[i];
        crate::kvmap::strset_insert(&mut provides, f.clone());
        i += 1;
    }
    let ghost f1 = strs_insert_all(Seq::empty(), fv);
    proof {
        assert(fv.skip(b.flags@.len() as int) =~= Seq::<Seq<char>>::empty());
        assert(provides.deep_view() == f1);
    }
    let ghost av = b.ariel.flags.deep_view();
    proof {
        assert(av.skip(0) =~= av);
        assert(forall|j: int|
            0 <= j < b.ariel.flags@.len() ==> av[j] == #[trigger] b.ariel.flags@[j]@);
    }
    let mut i: usize = 0;
    while i < b.ariel.flags.len()
        invariant
            i <= b.ariel.flags@.len(),
            av == b.ariel.flags.deep_view(),
            av.len() == b.ariel.flags@.len(),
            f1 == strs_insert_all(Seq::empty(), b.flags.deep_view()),
            forall|j: int|
                0 <= j < b.ariel.flags@.len() ==> av[j] == #[trigger] b.ariel.flags@[j]@,
            strs_sorted(provides.deep_view()),
            strs_insert_all(provides.deep_view(), av.skip(i as int)) == strs_insert_all(f1, av),
        decreases b.ariel.flags@.len() - i,
    {
        proof {
            assert(av.skip(i as int)[0] == av[i as int]);
            assert(av.skip(i as int).skip(1) =~= av.skip(i + 1));
        }
        let f = &b.ariel.flags[i];
        crate::kvmap::strset_insert(&mut provides, f.clone());
        i += 1;
    }
    proof {
        assert(av.skip(b.ariel.flags@.len() as int) =~= Seq::<Seq<char>>::empty());
    }
    if b.has_leds() {
        crate::kvmap::strset_insert(&mut provides, "has_leds".to_owned());
    }
    if b.has_buttons() {
        crate::kvmap::strset_insert(&mut provides, "has_buttons".to_owned());
    }
    if b.ariel.swi.is_some() {
        crate::kvmap::strset_insert(&mut provides, "has_swi".to_owned());
    }
    provides
}

/// The environment of one board's builder entry.
fn build_env(b: &Board) -> (v: Vec<(String, StringOrVecString)>)
    ensures
        kv_view(v@) == spec_board_env(*b),
{
    let mut env: Vec<(String, StringOrVecString)> = Vec::new();
    proof {
        crate::kvmap::lemma_kv_view_index(env@);
        assert(kv_view(env@) =~= Seq::<(Seq<char>, StrOrStrs)>::empty());
    }
    if let Some(swi) = &b.ariel.swi {
        let mut config_swi = String::new();
        config_swi.append("CONFIG_SWI=");
        config_swi.append(swi.as_str());
        proof {
            assert(config_swi@ =~= "CONFIG_SWI="@ + swi@);
        }
        let mut items: Vec<String> = Vec::new();
        items.push(config_swi);
        let ghost itemsv = items.deep_view();
        proof {
            assert(itemsv =~= seq!["CONFIG_SWI="@ + swi@]);
        }
        env.push(("CARGO_ENV".to_owned(), StringOrVecString::VecString(items)));
        proof {
            assert(env@.len() == 1);
            assert(env@[0].0@ == "CARGO_ENV"@);
            assert(env@[0].1.deep_view() == StrOrStrs::Many(itemsv));
            crate::kvmap::lemma_kv_view_index(env@);
            assert(kv_view(env@) =~= seq![
                ("CARGO_ENV"@, StrOrStrs::Many(seq!["CONFIG_SWI="@ + swi@])),
            ]);
        }
    }
    let ghost envbase = kv_view(env@);
    let ghost gv = kv_view(b.ariel.global_env@);
    proof {
        crate::kvmap::lemma_kv_view_index(b.ariel.global_env@);
        assert(kv_sorted(envbase));
        assert(gv.skip(0) =~= gv);
    }
    let mut i: usize = 0;
    while i < b.ariel.global_env.len()
        invariant
            i <= b.ariel.global_env@.len(),
            gv == kv_view(b.ariel.global_env@),
            gv.len() == b.ariel.global_env@.len(),
            forall|j: int|
                0 <= j < b.ariel.global_env@.len() ==> gv[j] == (b.ariel.global_env@[j].0@,
                #[trigger] b.ariel.global_env@[j].1.deep_view()),
            kv_sorted(kv_view(env@)),
            kv_insert_all(kv_view(env@), gv.skip(i as int)) == kv_insert_all(envbase, gv),
        decreases b.ariel.global_env@.len() - i,
    {
        proof {
            assert(gv.skip(i as int)[0] == gv[i as int]);
            assert(gv.skip(i as int).skip(1) =~= gv.skip(i + 1));
        }
        let e = &b.ariel.global_env[i];
        crate::kvmap::kv_insert_vec(&mut env, e.0.clone(), e.1.clone_value());
        i += 1;
    }
    proof {
        assert(gv.skip(b.ariel.global_env@.len() as int) =~= Seq::<
            (Seq<char>, StrOrStrs),
        >::empty());
        assert(kv_view(env@) == spec_board_env(*b));
    }
    env
}

/// The build-description entry of one retained board, as a context value.
fn build_board_builder(b: &Board) -> (c: LazeContext)
    ensures
        spec_laze_context(c) == spec_builder_entry(*b),
{
    let mut ctx = LazeContext::new(b.name.as_str());
    ctx.parent = Some(b.chip.clone());
    ctx.provides = build_provides(b);
    ctx.env = build_env(b);
    proof {
        assert(ctx.requires_.deep_view() =~= Seq::<Seq<char>>::empty());
        assert(ctx.selects.deep_view() =~= Seq::<Seq<char>>::empty());
        assert(kv_view(ctx.env@).len() == ctx.env@.len()) by {
            crate::kvmap::lemma_kv_view_index(ctx.env@);
        }
        assert(spec_laze_context(ctx) == spec_builder_entry(*b));
    }
    ctx
}

/// Context texts of matching entries agree.
proof fn lemma_contexts_entries(cs: Seq<LazeContext>, bs: Seq<Board>)
    requires
        cs.len() == bs.len(),
        forall|j: int|
            0 <= j < cs.len() ==> spec_laze_context(#[trigger] cs[j]) == spec_builder_entry(
                bs[j],
            ),
    ensures
        crate::laze::spec_laze_contexts(cs) == spec_builder_entries(bs),
    decreases cs.len(),
{
    if cs.len() > 0 {
        assert(forall|j: int| 0 <= j < cs.len() - 1 ==> cs.drop_last()[j] == cs[j]);
        assert(forall|j: int| 0 <= j < bs.len() - 1 ==> bs.drop_last()[j] == bs[j]);
        lemma_contexts_entries(cs.drop_last(), bs.drop_last());
    }
}

/// One warning per board whose chip the catalog lacks, in model order.
pub open spec fn spec_skip_warnings(boards: Seq<Board>, chips: Seq<String>) -> Seq<Seq<char>>
    decreases boards.len(),
{
    if boards.len() == 0 {
        Seq::empty()
    } else {
        spec_skip_warnings(boards.drop_last(), chips) + (if str_in(
            chips,
            boards.last().chip@,
        ) {
            Seq::empty()
        } else {
            seq![
                "warning: skipping board "@ + boards.last().name@ + ", unknown chip "@
                    + boards.last().chip@,
            ]
        })
    }
}

/// The warnings this backend's generation gives: an empty catalog, each
/// skipped board, and an empty result, in that order.
pub open spec fn spec_ariel_warnings(sbd: SbdFile) -> Seq<Seq<char>> {
    let chips = spec_ariel_chips(sbd);
    let boards = spec_boards(sbd);
    (if chips.len() == 0 {
        seq!["warning: No chips defined for Ariel OS"@]
    } else {
        Seq::empty()
    }) + spec_skip_warnings(boards, chips) + (if spec_retained(boards, chips).len() == 0 {
        seq!["warning: No boards defined for Ariel OS"@]
    } else {
        Seq::empty()
    })
}

/// The written-out dependency that inherits everything from the workspace.
pub open spec fn spec_ws_dep() -> Dependency {
    Dependency::Full(
        DependencyFull {
            version: None,
            package: None,
            path: None,
            git: None,
            optional: None,
            default_features: None,
            features: None,
            workspace: Some(true),
        },
    )
}

/// The manifest of the generated package: its name, workspace-inherited
/// metadata, two backend dependencies plus the conditional-compilation
/// helper, and a `no-boards` feature.
pub open spec fn spec_ariel_manifest(m: crate::krate::Manifest) -> bool {
    &&& m.package.name@ == "ariel-os-boards"@
    &&& m.package.edition == Some(StringOrWorkspace::Workspace)
    &&& m.package.license == Some(StringOrWorkspace::Workspace)
    &&& m.package.rust_version == Some(StringOrWorkspace::Workspace)
    &&& m.dependencies@.len() == 3
    &&& m.dependencies@[0].0@ == "ariel-os-embassy-common"@
    &&& m.dependencies@[0].1 == spec_ws_dep()
    &&& m.dependencies@[1].0@ == "ariel-os-hal"@
    &&& m.dependencies@[1].1 == spec_ws_dep()
    &&& m.dependencies@[2].0@ == "cfg-if"@
    &&& m.dependencies@[2].1 == spec_ws_dep()
    &&& m.features@.len() == 1
    &&& m.features@[0].0@ == "no-boards"@
    &&& m.features@[0].1@.len() == 0
}

/// The per-board source files inserted over `fm`, in order.
pub open spec fn spec_board_files(
    fm: Seq<(Seq<char>, Seq<char>)>,
    boards: Seq<Board>,
) -> Seq<(Seq<char>, Seq<char>)>
    decreases boards.len(),
{
    if boards.len() == 0 {
        fm
    } else {
        crate::filemap::fm_insert(
            spec_board_files(fm, boards.drop_last()),
            "src/"@ + boards.last().name@ + ".rs"@,
            spec_board_rs(boards.last()),
        )
    }
}

/// Every file of the generated package but the manifest: the build helper,
/// one source module per retained board, the crate root, and the
/// build-description file, inserted in that order.
pub open spec fn spec_ariel_files(sbd: SbdFile) -> Seq<(Seq<char>, Seq<char>)> {
    let chips = spec_ariel_chips(sbd);
    let retained = spec_retained(spec_boards(sbd), chips);
    crate::filemap::fm_insert(
        crate::filemap::fm_insert(
            spec_board_files(
                crate::filemap::fm_insert(
                    Seq::empty(),
                    "build.rs"@,
                    spec_build_rs(retained),
                ),
                retained,
            ),
            "src/lib.rs"@,
            spec_lib_rs(retained),
        ),
        "laze.yml"@,
        spec_ariel_laze(retained),
    )
}

/// The generated package and the warnings generation gave: the package's
/// manifest as `spec_ariel_manifest` says, its files as `spec_ariel_files`
/// says, the warnings as `spec_ariel_warnings` says.
pub fn render_ariel_board_crate(sbd: &SbdFile) -> (r: (Crate, Vec<String>))
    ensures
        spec_ariel_manifest(r.0.manifest),
        r.0.files@ == spec_ariel_files(*sbd),
        r.1.deep_view() == spec_ariel_warnings(*sbd),
{
    let empty_chips: Vec<String> = Vec::new();
    let empty_boards: Vec<Board> = Vec::new();
    let chips: &Vec<String> = match &sbd.ariel {
        Some(a) => match &a.chips {
            Some(c) => c,
            None => &empty_chips,
        },
        None => &empty_chips,
    };
    let boards: &Vec<Board> = match &sbd.boards {
        Some(b) => b,
        None => &empty_boards,
    };
    proof {
        assert(chips@ =~= spec_ariel_chips(*sbd));
        assert(boards@ =~= spec_boards(*sbd));
    }
    let ghost chipsv = chips@;
    let ghost boardsv = boards@;
    let ghost retained = spec_retained(boardsv, chipsv);

    // warnings: empty catalog, skipped boards, empty result
    let mut warnings: Vec<String> = Vec::new();
    if chips.is_empty() {
        warnings.push("warning: No chips defined for Ariel OS".to_owned());
    }
    let ghost w1 = warnings.deep_view();
    proof {
        assert(boardsv.take(0) =~= Seq::<Board>::empty());
        assert(warnings.deep_view() =~= w1 + spec_skip_warnings(boardsv.take(0), chipsv));
    }
    let n = boards.len();
    let mut i: usize = 0;
    while i < n
        invariant
            i <= n,
            n == boards@.len(),
            boards@ == boardsv,
            chips@ == chipsv,
            warnings.deep_view() == w1 + spec_skip_warnings(boardsv.take(i as int), chipsv),
        decreases n - i,
    {
        proof {
            crate::strutil::lemma_take_push(boardsv, i as int);
            assert(boardsv.take(i + 1).drop_last() =~= boardsv.take(i as int));
            assert(boardsv.take(i + 1).last() == boardsv[i as int]);
        }
        let board = &boards[i];
        if !str_vec_contains(chips, board.chip.as_str()) {
            let mut w = String::new();
            w.append("warning: skipping board ");
            w.append(board.name.as_str());
            w.append(", unknown chip ");
            w.append(board.chip.as_str());
            let ghost wv = warnings.deep_view();
            warnings.push(w);
            proof {
                assert(warnings.deep_view() =~= wv.push(
                    "warning: skipping board "@ + boardsv[i as int].name@ + ", unknown chip "@
                        + boardsv[i as int].chip@,
                ));
                assert(warnings.deep_view() =~= w1 + spec_skip_warnings(
                    boardsv.take(i + 1),
                    chipsv,
                ));
            }
        } else {
            proof {
                assert(spec_skip_warnings(boardsv.take(i + 1), chipsv) =~= spec_skip_warnings(
                    boardsv.take(i as int),
                    chipsv,
                ));
            }
        }
        i += 1;
    }
    proof {
        assert(boardsv.take(n as int) =~= boardsv);
    }
    let mut any_retained = false;
    let mut i: usize = 0;
    proof {
        assert(spec_retained(boardsv.take(0), chipsv) =~= Seq::<Board>::empty());
    }
    while i < n
        invariant
            i <= n,
            n == boards@.len(),
            boards@ == boardsv,
            chips@ == chipsv,
            any_retained == (spec_retained(boardsv.take(i as int), chipsv).len() > 0),
        decreases n - i,
    {
        proof {
            lemma_retained_step(boardsv, chipsv, i as int);
        }
        let board = &boards[i];
        if str_vec_contains(chips, board.chip.as_str()) {
            any_retained = true;
        }
        i += 1;
    }
    proof {
        assert(boardsv.take(n as int) =~= boardsv);
    }
    if !any_retained {
        let ghost wv = warnings.deep_view();
        warnings.push("warning: No boards defined for Ariel OS".to_owned());
        proof {
            assert(warnings.deep_view() =~= wv.push(
                "warning: No boards defined for Ariel OS"@,
            ));
        }
    }
    proof {
        assert(warnings.deep_view() =~= spec_ariel_warnings(*sbd));
    }

    // the package manifest
    let mut board_crate = Crate::new("ariel-os-boards");
    board_crate.manifest.package.edition = crate::krate::workspace();
    board_crate.manifest.package.license = crate::krate::workspace();
    board_crate.manifest.package.rust_version = crate::krate::workspace();
    board_crate.manifest.dependencies.push(
        (
            "ariel-os-embassy-common".to_owned(),
            Dependency::Full(
                DependencyFull {
                    version: None,
                    package: None,
                    path: None,
                    git: None,
                    optional: None,
                    default_features: None,
                    features: None,
                    workspace: Some(true),
                },
            ),
        ),
    );
    board_crate.manifest.dependencies.push(
        (
            "ariel-os-hal".to_owned(),
            Dependency::Full(
                DependencyFull {
                    version: None,
                    package: None,
                    path: None,
                    git: None,
                    optional: None,
                    default_features: None,
                    features: None,
                    workspace: Some(true),
                },
            ),
        ),
    );
    board_crate.manifest.dependencies.push(
        (
            "cfg-if".to_owned(),
            Dependency::Full(
                DependencyFull {
                    version: None,
                    package: None,
                    path: None,
                    git: None,
                    optional: None,
                    default_features: None,
                    features: None,
                    workspace: Some(true),
                },
            ),
        ),
    );
    board_crate.manifest.features.push(("no-boards".to_owned(), Vec::new()));
    proof {
        assert(spec_ariel_manifest(board_crate.manifest));
    }

    // the files
    let build_rs = render_build_rs(boards, chips);
    board_crate.files.insert("build.rs".to_owned(), build_rs);
    let ghost fm1 = crate::filemap::fm_insert(
        Seq::<(Seq<char>, Seq<char>)>::empty(),
        "build.rs"@,
        spec_build_rs(retained),
    );
    proof {
        assert(board_crate.files@ == fm1);
        assert(spec_board_files(fm1, spec_retained(boardsv.take(0), chipsv)) == fm1) by {
            assert(spec_retained(boardsv.take(0), chipsv) =~= Seq::<Board>::empty());
        }
    }
    let mut i: usize = 0;
    while i < n
        invariant
            i <= n,
            n == boards@.len(),
            boards@ == boardsv,
            chips@ == chipsv,
            fm1 == crate::filemap::fm_insert(
                Seq::<(Seq<char>, Seq<char>)>::empty(),
                "build.rs"@,
                spec_build_rs(spec_retained(boardsv, chipsv)),
            ),
            board_crate.files@ == spec_board_files(
                fm1,
                spec_retained(boardsv.take(i as int), chipsv),
            ),
            spec_ariel_manifest(board_crate.manifest),
        decreases n - i,
    {
        proof {
            lemma_retained_step(boardsv, chipsv, i as int);
        }
        let board = &boards[i];
        if str_vec_contains(chips, board.chip.as_str()) {
            let ghost rp = spec_retained(boardsv.take(i as int), chipsv);
            let mut path = String::new();
            path.append("src/");
            path.append(board.name.as_str());
            path.append(".rs");
            let board_rs = render_board_rs(board);
            board_crate.files.insert(path, board_rs);
            proof {
                let rn = spec_retained(boardsv.take(i + 1), chipsv);
                assert(rn =~= rp.push(boardsv[i as int]));
                assert(rn.drop_last() =~= rp);
                assert(board_crate.files@ == spec_board_files(fm1, rn));
            }
        } else {
            proof {
                assert(spec_retained(boardsv.take(i + 1), chipsv) =~= spec_retained(
                    boardsv.take(i as int),
                    chipsv,
                ));
            }
        }
        i += 1;
    }
    proof {
        assert(boardsv.take(n as int) =~= boardsv);
    }
    let mut lib_rs = String::new();
    lib_rs.append("// @generated\n\n#![no_std]\n\n");
    let dispatch = render_boards_dispatch(boards, chips);
    lib_rs.append(dispatch.as_str());
    proof {
        assert(lib_rs@ =~= spec_lib_rs(retained));
    }
    board_crate.files.insert("src/lib.rs".to_owned(), lib_rs);

    // the build-description file
    let mut laze_builders: Vec<LazeContext> = Vec::new();
    let mut i: usize = 0;
    proof {
        assert(spec_retained(boardsv.take(0), chipsv) =~= Seq::<Board>::empty());
    }
    while i < n
        invariant
            i <= n,
            n == boards@.len(),
            boards@ == boardsv,
            chips@ == chipsv,
            laze_builders@.len() == spec_retained(boardsv.take(i as int), chipsv).len(),
            forall|j: int|
                0 <= j < laze_builders@.len() ==> spec_laze_context(
                    #[trigger] laze_builders@[j],
                ) == spec_builder_entry(spec_retained(boardsv.take(i as int), chipsv)[j]),
        decreases n - i,
    {
        proof {
            lemma_retained_step(boardsv, chipsv, i as int);
        }
        let board = &boards[i];
        if str_vec_contains(chips, board.chip.as_str()) {
            let ghost rp = spec_retained(boardsv.take(i as int), chipsv);
            let ghost lb0 = laze_builders@;
            let ctx = build_board_builder(board);
            laze_builders.push(ctx);
            proof {
                let rn = spec_retained(boardsv.take(i + 1), chipsv);
                assert(rn =~= rp.push(boardsv[i as int]));
                assert forall|j: int|
                    0 <= j < laze_builders@.len() implies spec_laze_context(
                    #[trigger] laze_builders@[j],
                ) == spec_builder_entry(rn[j]) by {
                    if j < lb0.len() {
                        assert(laze_builders@[j] == lb0[j]);
                        assert(rn[j] == rp[j]);
                    } else {
                        assert(rn[j] == boardsv[i as int]);
                    }
                }
            }
        } else {
            proof {
                assert(spec_retained(boardsv.take(i + 1), chipsv) =~= spec_retained(
                    boardsv.take(i as int),
                    chipsv,
                ));
            }
        }
        i += 1;
    }
    proof {
        assert(boardsv.take(n as int) =~= boardsv);
        lemma_contexts_entries(laze_builders@, retained);
    }
    let ghost laze_buildersv = laze_builders@;
    let laze_file = LazeFile { contexts: None, builders: Some(laze_builders) };
    let mut laze_file_str = String::new();
    laze_file_str.append("# yamllint disable-file\n\n");
    let yaml = laze_file.to_yaml();
    laze_file_str.append(yaml.as_str());
    proof {
        assert(laze_file.builders->0@ == laze_buildersv);
        assert(yaml@ =~= "builders:\n"@ + crate::laze::spec_laze_contexts(laze_buildersv));
        assert(laze_file_str@ =~= spec_ariel_laze(retained));
    }
    board_crate.files.insert("laze.yml".to_owned(), laze_file_str);
    proof {
        assert(board_crate.files@ == spec_ariel_files(*sbd));
    }
    (board_crate, warnings)
}

/// Generation for this backend: the package and the warnings, from the
/// merged model alone.  Reading the input tree and writing the package to
/// disk stay with the caller.
pub fn generate(sbd: &SbdFile) -> (r: (Crate, Vec<String>))
    ensures
        spec_ariel_manifest(r.0.manifest),
        r.0.files@ == spec_ariel_files(*sbd),
        r.1.deep_view() == spec_ariel_warnings(*sbd),
{
    render_ariel_board_crate(sbd)
}

} // verus!
