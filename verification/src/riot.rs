//! The second code generation backend: turns the board model into one
//! directory per board, holding C headers and Makefile fragments.
//!
//! Boards whose chip the backend's catalog does not declare are left out,
//! with a warning.  A UART requirement draws the first peripheral still in
//! the chip's pool — each peripheral serves one UART, never two — and a
//! requirement that finds the pool empty is skipped with a warning.  Only an
//! unparsable pin name is an error.

use vstd::prelude::*;

pub use crate::filemap::Mode;
pub use crate::model::Riot;
pub use crate::model::RiotBoardExt;
pub use crate::model::RiotChipMapEntry;
pub use crate::model::RiotChipPeripherals;
pub use crate::model::RiotChipUartPeripheral;
pub use crate::model::RiotQirkEntry;

use crate::filemap::FileMap;
use crate::kvmap::{kv_insert, kv_sorted, kv_view, vk_get, vk_has};
use crate::model::{Board, SbdFile, Uart};
use crate::pin::spec_parse_gpio_name;
use crate::strutil::dec_str;

verus! {

/// What the generate subcommand of this backend is given: the fragment
/// directory, the reconcile mode, and the output directory.
#[derive(Debug, Clone, PartialEq, Eq)]
pub struct GenerateRiotArgs {
    pub sbd_dir: String,
    pub mode: Option<Mode>,
    pub output: String,
}

/// A pin name that neither recognized textual form matches.
#[derive(Debug, Clone, PartialEq, Eq)]
pub struct PinFormatError {
    pub name: String,
}

/// The generated files of one board, under the board's name.
#[derive(Debug, PartialEq, Eq)]
pub struct RiotBoard {
    pub name: String,
    pub files: FileMap,
}

impl RiotBoard {
    /// An empty board directory named `name`.
    pub fn new(name: &str) -> (r: RiotBoard)
        ensures
            r.name@ == name@,
            r.files@ == Seq::<(Seq<char>, Seq<char>)>::empty(),
    {
        RiotBoard { name: name.to_owned(), files: FileMap::new() }
    }
}

/// A generated C source file: an optional pragma line, header names, guard
/// lines, and literal content snippets.
#[derive(Debug, Clone, PartialEq, Eq, Default)]
pub struct CFile {
    pub pragma_once: bool,
    pub cplusplus_guards: bool,
    pub headers: Vec<String>,
    pub content_snips: Vec<String>,
}

/// The header inclusion lines, one per header name.
pub open spec fn spec_cfile_headers(headers: Seq<Seq<char>>) -> Seq<char>
    decreases headers.len(),
{
    if headers.len() == 0 {
        Seq::empty()
    } else {
        spec_cfile_headers(headers.drop_last()) + "#inclu"@ + "de "@ + headers.last() + "\n"@
    }
}

/// The content snippets, concatenated verbatim.
pub open spec fn spec_cfile_snips(snips: Seq<Seq<char>>) -> Seq<char>
    decreases snips.len(),
{
    if snips.len() == 0 {
        Seq::empty()
    } else {
        spec_cfile_snips(snips.drop_last()) + snips.last()
    }
}

/// A whole C file: pragma, headers, the opening language guard, the
/// snippets, the closing language guard.
pub open spec fn spec_cfile_parts(
    pragma_once: bool,
    cplusplus_guards: bool,
    headers: Seq<Seq<char>>,
    snips: Seq<Seq<char>>,
) -> Seq<char> {
    (if pragma_once {
        "#pragma once\n"@
    } else {
        Seq::empty()
    }) + (if headers.len() > 0 {
        "\n"@ + spec_cfile_headers(headers)
    } else {
        Seq::empty()
    }) + (if cplusplus_guards {
        "\n#ifdef __cplusplus\next"@ + "ern \"C\" {\n#endif\n\n"@
    } else {
        Seq::empty()
    }) + spec_cfile_snips(snips) + (if cplusplus_guards {
        "#ifdef __cplusplus\n}\n#endif\n"@
    } else {
        Seq::empty()
    })
}

/// The text of a `CFile` value.
pub open spec fn spec_cfile(c: CFile) -> Seq<char> {
    spec_cfile_parts(c.pragma_once, c.cplusplus_guards, c.headers.deep_view(), c.content_snips.deep_view())
}

impl CFile {
    /// An empty file with neither pragma nor guards.
    pub fn new() -> (r: CFile)
        ensures
            !r.pragma_once,
            !r.cplusplus_guards,
            r.headers@.len() == 0,
            r.content_snips@.len() == 0,
    {
        CFile { pragma_once: false, cplusplus_guards: false, headers: Vec::new(), content_snips: Vec::new() }
    }

    /// An empty header file: pragma and language guards on.
    pub fn new_header() -> (r: CFile)
        ensures
            r.pragma_once,
            r.cplusplus_guards,
            r.headers@.len() == 0,
            r.content_snips@.len() == 0,
    {
        CFile { pragma_once: true, cplusplus_guards: true, headers: Vec::new(), content_snips: Vec::new() }
    }

    /// The file rendered as C source text.
    pub fn render(&self) -> (r: String)
        ensures
            r@ == spec_cfile(*self),
    {
        let mut s = String::new();
        if self.pragma_once {
            s.append("#pragma once\n");
        }
        let ghost c1 = s@;
        let ghost hv = self.headers.deep_view();
        proof {
            assert(forall|j: int|
                0 <= j < self.headers@.len() ==> hv[j] == #[trigger] self.headers@[j]@);
        }
        if self.headers.len() > 0 {
            s.append("\n");
            let ghost base = s@;
            let n = self.headers.len();
            let mut i: usize = 0;
            proof {
                assert(hv.take(0) =~= Seq::<Seq<char>>::empty());
                assert(s@ =~= base + spec_cfile_headers(hv.take(0)));
            }
            while i < n
                invariant
                    i <= n,
                    n == self.headers@.len(),
                    hv == self.headers.deep_view(),
                    hv.len() == n,
                    forall|j: int|
                        0 <= j < self.headers@.len() ==> hv[j] == #[trigger] self.headers@[j]@,
                    s@ == base + spec_cfile_headers(hv.take(i as int)),
                decreases n - i,
            {
                proof {
                    crate::strutil::lemma_take_push(hv, i as int);
                    assert(hv.take(i + 1).drop_last() =~= hv.take(i as int));
                    assert(hv.take(i + 1).last() == hv[i as int]);
                }
                s.append("#inclu");
                s.append("de ");
                let h = &self.headers[i];
                s.append(h.as_str());
                s.append("\n");
                proof {
                    assert(s@ =~= base + spec_cfile_headers(hv.take(i + 1)));
                }
                i += 1;
            }
            proof {
                assert(hv.take(n as int) =~= hv);
            }
        }
        let ghost c2 = s@;
        proof {
            assert(c2 =~= c1 + (if hv.len() > 0 {
                "\n"@ + spec_cfile_headers(hv)
            } else {
                Seq::<char>::empty()
            }));
        }
        if self.cplusplus_guards {
            s.append("\n#ifdef __cplusplus\next");
            s.append("ern \"C\" {\n#endif\n\n");
        }
        let ghost c3 = s@;
        let ghost sv = self.content_snips.deep_view();
        proof {
            assert(forall|j: int|
                0 <= j < self.content_snips@.len() ==> sv[j] == #[trigger] self.content_snips@[
                j]@);
        }
        {
            let ghost base = s@;
            let n = self.content_snips.len();
            let mut i: usize = 0;
            proof {
                assert(sv.take(0) =~= Seq::<Seq<char>>::empty());
                assert(s@ =~= base + spec_cfile_snips(sv.take(0)));
            }
            while i < n
                invariant
                    i <= n,
                    n == self.content_snips@.len(),
                    sv == self.content_snips.deep_view(),
                    sv.len() == n,
                    forall|j: int|
                        0 <= j < self.content_snips@.len() ==> sv[j]
                            == #[trigger] self.content_snips@[j]@,
                    s@ == base + spec_cfile_snips(sv.take(i as int)),
                decreases n - i,
            {
                proof {
                    crate::strutil::lemma_take_push(sv, i as int);
                    assert(sv.take(i + 1).drop_last() =~= sv.take(i as int));
                    assert(sv.take(i + 1).last() == sv[i as int]);
                }
                let snip = &self.content_snips[i];
                s.append(snip.as_str());
                proof {
                    assert(s@ =~= base + spec_cfile_snips(sv.take(i + 1)));
                }
                i += 1;
            }
            proof {
                assert(sv.take(n as int) =~= sv);
            }
        }
        if self.cplusplus_guards {
            s.append("#ifdef __cplusplus\n}\n#endif\n");
        }
        proof {
            assert(s@ =~= spec_cfile(*self));
        }
        s
    }
}

/// The pin macro text for a symbolic pin name, if the name parses.
pub open spec fn spec_riot_pin(s: Seq<char>) -> Option<Seq<char>> {
    match spec_parse_gpio_name(s) {
        Some((port, pin)) => Some(
            "GPIO_PIN("@ + dec_str(port as int) + ", "@ + dec_str(pin as int) + ")"@,
        ),
        None => None,
    }
}

/// The second backend's chip catalog.
pub open spec fn spec_riot_catalog(sbd: SbdFile) -> Seq<(String, RiotChipMapEntry)> {
    match sbd.riot {
        Some(r) => r.chips@,
        None => Seq::empty(),
    }
}

/// The UART peripheral pool a chip declares.
pub open spec fn spec_pool_of(e: RiotChipMapEntry) -> Seq<(String, RiotChipUartPeripheral)> {
    match e.peripherals {
        Some(p) => p.uarts@,
        None => Seq::empty(),
    }
}

/// Every UART peripheral configuration of the chip is a sorted map.
pub open spec fn spec_chip_cfgs_sorted(e: RiotChipMapEntry) -> bool {
    forall|i: int|
        0 <= i < spec_pool_of(e).len() ==> kv_sorted(
            kv_view(#[trigger] spec_pool_of(e)[i].1.config@),
        )
}

/// The UART requirements of a board: the debugger's UART first, then the
/// board's own, in declaration order.
pub open spec fn spec_board_uarts(b: Board) -> Seq<Uart> {
    (match b.debugger {
        Some(d) => match d.uart {
            Some(u) => seq![u],
            None => Seq::empty(),
        },
        None => Seq::empty(),
    }) + (match b.uarts {
        Some(us) => us@,
        None => Seq::empty(),
    })
}

/// The view of an optional name.
pub open spec fn opt_view(o: Option<String>) -> Option<Seq<char>> {
    match o {
        Some(s) => Some(s@),
        None => None,
    }
}

/// One resolved UART: the drawn peripheral's configuration with the pin
/// macros for the requirement's pins put in, and the peripheral's ISR name.
pub open spec fn spec_resolved_entry(u: Uart, p: (String, RiotChipUartPeripheral)) -> (
    Seq<(Seq<char>, Seq<char>)>,
    Option<Seq<char>>,
) {
    (
        kv_insert(
            kv_insert(kv_view(p.1.config@), "rx_pin"@, spec_riot_pin(u.rx_pin@)->0),
            "tx_pin"@,
            spec_riot_pin(u.tx_pin@)->0,
        ),
        opt_view(p.1.isr),
    )
}

/// The resolution of the requirements of `uarts`, the pool consumed up to
/// `k`: the first peripheral still in the pool serves the next requirement
/// and leaves the pool; an exhausted pool skips the requirement; a pin name
/// that does not parse stops everything, named in the error.
pub open spec fn spec_resolve(
    uarts: Seq<Uart>,
    pool: Seq<(String, RiotChipUartPeripheral)>,
    k: int,
) -> Result<Seq<(Seq<(Seq<char>, Seq<char>)>, Option<Seq<char>>)>, Seq<char>>
    decreases uarts.len(),
{
    if uarts.len() == 0 {
        Ok(Seq::empty())
    } else if k >= pool.len() {
        spec_resolve(uarts.skip(1), pool, k)
    } else if spec_riot_pin(uarts[0].rx_pin@) is None {
        Err(uarts[0].rx_pin@)
    } else if spec_riot_pin(uarts[0].tx_pin@) is None {
        Err(uarts[0].tx_pin@)
    } else {
        match spec_resolve(uarts.skip(1), pool, k + 1) {
            Ok(rest) => Ok(seq![spec_resolved_entry(uarts[0], pool[k])] + rest),
            Err(e) => Err(e),
        }
    }
}

/// Resolution is single-assignment: when it succeeds, exactly the first
/// requirements that fit the pool are resolved, and the `i`-th of them draws
/// the `i`-th peripheral left in the pool — two requirements never draw the
/// same one, and a requirement that finds the pool exhausted is skipped.
pub proof fn lemma_uart_single_assignment(
    uarts: Seq<Uart>,
    pool: Seq<(String, RiotChipUartPeripheral)>,
    k: int,
)
    requires
        0 <= k,
        spec_resolve(uarts, pool, k) is Ok,
    ensures
        spec_resolve(uarts, pool, k)->Ok_0.len() == (if uarts.len() <= pool.len() - k {
            uarts.len() as int
        } else if pool.len() - k >= 0 {
            pool.len() - k
        } else {
            0
        }),
        forall|i: int|
            0 <= i < spec_resolve(uarts, pool, k)->Ok_0.len() ==> spec_resolve(
                uarts,
                pool,
                k,
            )->Ok_0[i] == spec_resolved_entry(uarts[i], pool[k + i]),
    decreases uarts.len(),
{
    if uarts.len() == 0 {
    } else if k >= pool.len() {
        assert(forall|j: int| 0 <= j < uarts.len() - 1 ==> uarts.skip(1)[j] == uarts[j + 1]);
        lemma_uart_single_assignment(uarts.skip(1), pool, k);
    } else {
        assert(forall|j: int| 0 <= j < uarts.len() - 1 ==> uarts.skip(1)[j] == uarts[j + 1]);
        lemma_uart_single_assignment(uarts.skip(1), pool, k + 1);
        let rest = spec_resolve(uarts.skip(1), pool, k + 1)->Ok_0;
        let whole = spec_resolve(uarts, pool, k)->Ok_0;
        assert(whole == seq![spec_resolved_entry(uarts[0], pool[k])] + rest);
        assert forall|i: int| 0 <= i < whole.len() implies whole[i] == spec_resolved_entry(
            uarts[i],
            pool[k + i],
        ) by {
            if i > 0 {
                assert(whole[i] == rest[i - 1]);
                assert(rest[i - 1] == spec_resolved_entry(uarts.skip(1)[i - 1], pool[k + i]));
            }
        }
    }
}

/// The skip warnings of resolution: one per requirement beyond what the
/// pool could serve, in order.
pub open spec fn spec_uart_warnings(
    board_name: Seq<char>,
    uarts: Seq<Uart>,
    avail: int,
) -> Seq<Seq<char>>
    decreases uarts.len(),
{
    if uarts.len() <= avail || uarts.len() == 0 {
        Seq::empty()
    } else {
        spec_uart_warnings(board_name, uarts.drop_last(), avail) + seq![
            "warning: "@ + board_name + ": no peripheral found for UART "@ + (match uarts.last()
                .name {
                Some(n) => n@,
                None => "unnamed"@,
            }),
        ]
    }
}

/// The pin macro text for a symbolic pin name, or the error naming the pin
/// that did not parse.
pub fn name2riot_pin(gpio_name: &str) -> (r: Result<String, PinFormatError>)
    ensures
        match r {
            Ok(s) => spec_riot_pin(gpio_name@) == Some(s@),
            Err(e) => spec_riot_pin(gpio_name@) is None && e.name@ == gpio_name@,
        },
{
    match crate::pin::parse_gpio_name(gpio_name) {
        Some((port, pin)) => {
            let mut s = String::new();
            s.append("GPIO_PIN(");
            let p = crate::strutil::u64_to_dec(port as u64);
            s.append(p.as_str());
            s.append(", ");
            let q = crate::strutil::u64_to_dec(pin as u64);
            s.append(q.as_str());
            s.append(")");
            proof {
                assert(s@ =~= "GPIO_PIN("@ + dec_str(port as int) + ", "@ + dec_str(pin as int)
                    + ")"@);
            }
            Ok(s)
        },
        None => Err(PinFormatError { name: gpio_name.to_owned() }),
    }
}

/// The requirements a borrowed UART list stands for.
pub open spec fn urefs_view(s: Seq<&Uart>) -> Seq<Uart>
    decreases s.len(),
{
    if s.len() == 0 {
        Seq::empty()
    } else {
        urefs_view(s.drop_last()).push(*s.last())
    }
}

/// `urefs_view` is pointwise.
pub broadcast proof fn lemma_urefs_view_index(s: Seq<&Uart>)
    ensures
        (#[trigger] urefs_view(s)).len() == s.len(),
        forall|i: int| 0 <= i < s.len() ==> urefs_view(s)[i] == *s[i],
    decreases s.len(),
{
    if s.len() > 0 {
        lemma_urefs_view_index(s.drop_last());
        assert forall|i: int| 0 <= i < s.len() implies urefs_view(s)[i] == *s[i] by {
            if i < s.len() - 1 {
                assert(s.drop_last()[i] == s[i]);
                assert(urefs_view(s.drop_last())[i] == *s.drop_last()[i]);
            } else {
                assert(urefs_view(s)[i] == *s.last());
            }
        }
    }
}

/// The abstract entries of resolved UART configurations.
pub open spec fn resolved_view(s: Seq<(Vec<(String, String)>, Option<String>)>) -> Seq<
    (Seq<(Seq<char>, Seq<char>)>, Option<Seq<char>>),
>
    decreases s.len(),
{
    if s.len() == 0 {
        Seq::empty()
    } else {
        resolved_view(s.drop_last()).push((kv_view(s.last().0@), opt_view(s.last().1)))
    }
}

/// `resolved_view` is pointwise.
pub broadcast proof fn lemma_resolved_view_index(s: Seq<(Vec<(String, String)>, Option<String>)>)
    ensures
        (#[trigger] resolved_view(s)).len() == s.len(),
        forall|i: int|
            0 <= i < s.len() ==> resolved_view(s)[i] == (kv_view(s[i].0@), opt_view(s[i].1)),
    decreases s.len(),
{
    if s.len() > 0 {
        lemma_resolved_view_index(s.drop_last());
    }
}

fn clone_opt_string(o: &Option<String>) -> (r: Option<String>)
    ensures
        opt_view(r) == opt_view(*o),
{
    match o {
        Some(s) => Some(s.clone()),
        None => None,
    }
}

/// Resolves the board's UART requirements against the chip's pool: the
/// first peripheral still in the pool serves the next requirement; an
/// exhausted pool costs a warning and skips the requirement; a pin name that
/// does not parse is the error.
fn resolve_uarts(
    board_name: &str,
    uarts: &Vec<&Uart>,
    pool: &Vec<(String, RiotChipUartPeripheral)>,
    warnings: &mut Vec<String>,
) -> (r: Result<Vec<(Vec<(String, String)>, Option<String>)>, PinFormatError>)
    requires
        forall|i: int|
            0 <= i < pool@.len() ==> kv_sorted(kv_view(#[trigger] pool@[i].1.config@)),
    ensures
        match r {
            Ok(out) => spec_resolve(urefs_view(uarts@), pool@, 0) == Ok::<_, Seq<char>>(
                resolved_view(out@),
            ) && final(warnings).deep_view() == old(warnings).deep_view() + spec_uart_warnings(
                board_name@,
                urefs_view(uarts@),
                pool@.len() as int,
            ),
            Err(e) => spec_resolve(urefs_view(uarts@), pool@, 0) == Err::<
                Seq<(Seq<(Seq<char>, Seq<char>)>, Option<Seq<char>>)>,
                Seq<char>,
            >(e.name@),
        },
{
    let ghost uv = urefs_view(uarts@);
    let ghost avail = pool@.len() as int;
    let ghost w0 = old(warnings).deep_view();
    proof {
        lemma_urefs_view_index(uarts@);
        assert(uv.skip(0) =~= uv);
        assert(uv.take(0) =~= Seq::<Uart>::empty());
    }
    let mut out: Vec<(Vec<(String, String)>, Option<String>)> = Vec::new();
    let mut k: usize = 0;
    let mut i: usize = 0;
    let n = uarts.len();
    proof {
        lemma_resolved_view_index(out@);
        assert(resolved_view(out@) =~= Seq::<
            (Seq<(Seq<char>, Seq<char>)>, Option<Seq<char>>),
        >::empty());
    }
    while i < n
        invariant
            i <= n,
            n == uarts@.len(),
            uv == urefs_view(uarts@),
            uv.len() == n,
            forall|j: int| 0 <= j < n ==> uv[j] == *(#[trigger] uarts@[j]),
            avail == pool@.len() as int,
            forall|j: int|
                0 <= j < pool@.len() ==> kv_sorted(kv_view(#[trigger] pool@[j].1.config@)),
            k as int == (if i as int <= avail {
                i as int
            } else {
                avail
            }),
            w0 == old(warnings).deep_view(),
            warnings.deep_view() == w0 + spec_uart_warnings(board_name@, uv.take(i as int), avail),
            spec_resolve(uv.skip(i as int), pool@, k as int) matches Ok(rest) ==> spec_resolve(
                uv,
                pool@,
                0,
            ) == Ok::<_, Seq<char>>(resolved_view(out@) + rest),
            spec_resolve(uv.skip(i as int), pool@, k as int) matches Err(e) ==> spec_resolve(
                uv,
                pool@,
                0,
            ) == Err::<Seq<(Seq<(Seq<char>, Seq<char>)>, Option<Seq<char>>)>, _>(e),
        decreases n - i,
    {
        proof {
            assert(uv.skip(i as int)[0] == uv[i as int]);
            assert(uv.skip(i as int).skip(1) =~= uv.skip(i + 1));
            crate::strutil::lemma_take_push(uv, i as int);
            assert(uv.take(i + 1).drop_last() =~= uv.take(i as int));
            assert(uv.take(i + 1).last() == uv[i as int]);
        }
        let u: &Uart = uarts[i];
        if k < pool.len() {
            let rxs = match name2riot_pin(u.rx_pin.as_str()) {
                Ok(s) => s,
                Err(e) => {
                    proof {
                        assert(spec_resolve(uv.skip(i as int), pool@, k as int) == Err::<
                            Seq<(Seq<(Seq<char>, Seq<char>)>, Option<Seq<char>>)>,
                            Seq<char>,
                        >(uv[i as int].rx_pin@));
                    }
                    return Err(e);
                },
            };
            let txs = match name2riot_pin(u.tx_pin.as_str()) {
                Ok(s) => s,
                Err(e) => {
                    proof {
                        assert(spec_resolve(uv.skip(i as int), pool@, k as int) == Err::<
                            Seq<(Seq<(Seq<char>, Seq<char>)>, Option<Seq<char>>)>,
                            Seq<char>,
                        >(uv[i as int].tx_pin@));
                    }
                    return Err(e);
                },
            };
            let p = &pool[k];
            let mut cfg = crate::model::clone_string_pairs(&p.1.config);
            let ghost rxv = rxs@;
            let ghost txv = txs@;
            crate::kvmap::kv_insert_vec(&mut cfg, "rx_pin".to_owned(), rxs);
            crate::kvmap::kv_insert_vec(&mut cfg, "tx_pin".to_owned(), txs);
            let isr = clone_opt_string(&p.1.isr);
            let ghost cfgv = kv_view(cfg@);
            let ghost isrv = opt_view(isr);
            let ghost out0 = out@;
            out.push((cfg, isr));
            proof {
                assert(out@ =~= out0.push(out@[out0.len() as int]));
                lemma_resolved_view_index(out@);
                lemma_resolved_view_index(out0);
                assert(resolved_view(out@) =~= resolved_view(out0).push((cfgv, isrv)));
                assert((cfgv, isrv) == spec_resolved_entry(uv[i as int], pool@[k as int]));
                match spec_resolve(uv.skip(i + 1), pool@, k + 1) {
                    Ok(rest2) => {
                        assert(spec_resolve(uv.skip(i as int), pool@, k as int) == Ok::<
                            _,
                            Seq<char>,
                        >(seq![(cfgv, isrv)] + rest2));
                        assert(resolved_view(out0) + (seq![(cfgv, isrv)] + rest2)
                            =~= resolved_view(out@) + rest2);
                    },
                    Err(_) => {
                    },
                }
                assert(spec_uart_warnings(board_name@, uv.take(i + 1), avail)
                    =~= spec_uart_warnings(board_name@, uv.take(i as int), avail));
            }
            k += 1;
        } else {
            let mut w = String::new();
            w.append("warning: ");
            w.append(board_name);
            w.append(": no peripheral found for UART ");
            match &u.name {
                Some(nm) => {
                    w.append(nm.as_str());
                },
                None => {
                    w.append("unnamed");
                },
            }
            let ghost wv = warnings.deep_view();
            let ghost wtext = w@;
            warnings.push(w);
            proof {
                assert(warnings.deep_view() =~= wv.push(wtext));
                assert(wtext =~= "warning: "@ + board_name@
                    + ": no peripheral found for UART "@ + (match uv[i as int].name {
                    Some(nm) => nm@,
                    None => "unnamed"@,
                }));
                assert(uv.take(i + 1).len() > avail);
                assert(warnings.deep_view() =~= w0 + spec_uart_warnings(
                    board_name@,
                    uv.take(i + 1),
                    avail,
                ));
            }
        }
        i += 1;
    }
    proof {
        assert(uv.skip(n as int) =~= Seq::<Uart>::empty());
        assert(spec_resolve(Seq::<Uart>::empty(), pool@, k as int) == Ok::<_, Seq<char>>(Seq::<
            (Seq<(Seq<char>, Seq<char>)>, Option<Seq<char>>),
        >::empty()));
        assert(resolved_view(out@) + Seq::<
            (Seq<(Seq<char>, Seq<char>)>, Option<Seq<char>>),
        >::empty() =~= resolved_view(out@));
        assert(uv.take(n as int) =~= uv);
    }
    Ok(out)
}

/// The snippets a chip contributes to the file named `fname`.
pub open spec fn spec_quirk_snips(e: RiotChipMapEntry, fname: Seq<char>) -> Seq<Seq<char>> {
    match vk_get(e.quirks@, fname) {
        Some(q) => q.body.deep_view(),
        None => Seq::empty(),
    }
}

/// The member lines of one configuration struct.
pub open spec fn spec_cfg_lines(cfg: Seq<(Seq<char>, Seq<char>)>) -> Seq<char>
    decreases cfg.len(),
{
    if cfg.len() == 0 {
        Seq::empty()
    } else {
        spec_cfg_lines(cfg.drop_last()) + "        ."@ + cfg.last().0 + " = "@ + cfg.last().1
            + ",\n"@
    }
}

/// The struct blocks of the configuration array, in resolution order.
pub open spec fn spec_cfg_blocks(rs: Seq<(Seq<(Seq<char>, Seq<char>)>, Option<Seq<char>>)>) -> Seq<
    char,
>
    decreases rs.len(),
{
    if rs.len() == 0 {
        Seq::empty()
    } else {
        spec_cfg_blocks(rs.drop_last()) + "    {\n"@ + spec_cfg_lines(rs.last().0) + "    },\n"@
    }
}

/// The interrupt-service-routine macros, indexed by resolution order.
pub open spec fn spec_isr_lines(rs: Seq<(Seq<(Seq<char>, Seq<char>)>, Option<Seq<char>>)>) -> Seq<
    char,
>
    decreases rs.len(),
{
    if rs.len() == 0 {
        Seq::empty()
    } else {
        spec_isr_lines(rs.drop_last()) + (match rs.last().1 {
            Some(isr) => "#define UART_"@ + dec_str(rs.len() - 1) + "_ISR          ("@ + isr
                + ")\n"@,
            None => Seq::empty(),
        })
    }
}

/// The UART section of the peripheral configuration header: the static
/// configuration array, the ISR macros, and the count macro.
pub open spec fn spec_uart_block(rs: Seq<(Seq<(Seq<char>, Seq<char>)>, Option<Seq<char>>)>) -> Seq<
    char,
> {
    "\n"@ + "static const uart_conf_t uart_config[] = {\n"@ + spec_cfg_blocks(rs) + "};\n\n"@
        + spec_isr_lines(rs) + "#define UART_NUMOF          ARRAY_SIZE(uart_config)\n\n"@
}

/// The peripheral configuration header of one board.
pub open spec fn spec_periph_conf(
    e: RiotChipMapEntry,
    rs: Seq<(Seq<(Seq<char>, Seq<char>)>, Option<Seq<char>>)>,
) -> Seq<char> {
    spec_cfile_parts(
        true,
        true,
        seq!["\"kernel_defines.h\""@, "\"periph_cpu.h\""@],
        spec_quirk_snips(e, "periph_conf.h"@) + (if rs.len() > 0 {
            seq![spec_uart_block(rs)]
        } else {
            Seq::empty()
        }),
    )
}

/// The board header of one board.
pub open spec fn spec_board_h(e: RiotChipMapEntry) -> Seq<char> {
    spec_cfile_parts(true, true, seq!["\"cpu.h\""@], spec_quirk_snips(e, "board.h"@))
}

/// The main Makefile: fixed module name and base inclusion.
pub open spec fn spec_makefile() -> Seq<char> {
    "MODULE = board"@ + "\ninclu"@ + "de $(RIOTBASE)/Makefile.base\n"@
}

/// The feature Makefile: the resolved CPU identifiers and the provided
/// features — `periph_uart` exactly when a UART was resolved.
pub open spec fn spec_makefile_features(e: RiotChipMapEntry, uart_any: bool) -> Seq<char> {
    "CPU = "@ + e.cpu@ + "\n"@ + "CPU_MODEL = "@ + e.cpu_model@ + "\n"@ + (if uart_any {
        "FEATURES_PROVIDED += periph_uart\n"@
    } else {
        Seq::empty()
    })
}

/// The inclusion Makefile: the debugger programmer override, if any.
pub open spec fn spec_makefile_inc(b: Board) -> Seq<char> {
    match b.debugger {
        Some(d) => "PROGRAMMER ?= "@ + d.type_@ + "\n"@,
        None => Seq::empty(),
    }
}

/// The files of one board's directory, or the pin name that stopped
/// generation: the two headers, then the four Makefile fragments, inserted
/// in that order.
pub open spec fn spec_riot_board_files(b: Board, e: RiotChipMapEntry) -> Result<
    Seq<(Seq<char>, Seq<char>)>,
    Seq<char>,
> {
    match spec_resolve(spec_board_uarts(b), spec_pool_of(e), 0) {
        Ok(rs) => Ok(
            crate::filemap::fm_insert(
                crate::filemap::fm_insert(
                    crate::filemap::fm_insert(
                        crate::filemap::fm_insert(
                            crate::filemap::fm_insert(
                                crate::filemap::fm_insert(
                                    Seq::empty(),
                                    "inclu"@ + "de/periph_conf.h"@,
                                    spec_periph_conf(e, rs),
                                ),
                                "inclu"@ + "de/board.h"@,
                                spec_board_h(e),
                            ),
                            "Makefile"@,
                            spec_makefile(),
                        ),
                        "Makefile.dep"@,
                        Seq::empty(),
                    ),
                    "Makefile.features"@,
                    spec_makefile_features(e, rs.len() > 0),
                ),
                "Makefile.inclu"@ + "de"@,
                spec_makefile_inc(b),
            ),
        ),
        Err(e2) => Err(e2),
    }
}

/// Appends copies of `body` to `snips`.
fn push_snips(snips: &mut Vec<String>, body: &Vec<String>)
    ensures
        final(snips).deep_view() == old(snips).deep_view() + body.deep_view(),
{
    let ghost s0 = old(snips).deep_view();
    let ghost bv = body.deep_view();
    proof {
        assert(bv.take(0) =~= Seq::<Seq<char>>::empty());
        assert(snips.deep_view() =~= s0 + bv.take(0));
        assert(forall|j: int| 0 <= j < body@.len() ==> bv[j] == #[trigger] body@[j]@);
    }
    let mut i: usize = 0;
    while i < body.len()
        invariant
            i <= body@.len(),
            bv == body.deep_view(),
            bv.len() == body@.len(),
            forall|j: int| 0 <= j < body@.len() ==> bv[j] == #[trigger] body@[j]@,
            snips.deep_view() == s0 + bv.take(i as int),
        decreases body@.len() - i,
    {
        proof {
            crate::strutil::lemma_take_push(bv, i as int);
        }
        let e = &body[i];
        let ghost sv = snips.deep_view();
        snips.push(e.clone());
        proof {
            assert(snips.deep_view() =~= sv.push(bv[i as int]));
            assert(snips.deep_view() =~= s0 + bv.take(i + 1));
        }
        i += 1;
    }
    proof {
        assert(bv.take(body@.len() as int) =~= bv);
    }
}

/// The UART section rendered as text.
fn render_uart_block(rs: &Vec<(Vec<(String, String)>, Option<String>)>) -> (r: String)
    ensures
        r@ == spec_uart_block(resolved_view(rs@)),
{
    let ghost rv = resolved_view(rs@);
    proof {
        lemma_resolved_view_index(rs@);
    }
    let mut s = String::new();
    s.append("\n");
    s.append("static const uart_conf_t uart_config[] = {\n");
    let ghost base = s@;
    let n = rs.len();
    let mut i: usize = 0;
    proof {
        assert(rv.take(0) =~= Seq::<(Seq<(Seq<char>, Seq<char>)>, Option<Seq<char>>)>::empty());
        assert(s@ =~= base + spec_cfg_blocks(rv.take(0)));
    }
    while i < n
        invariant
            i <= n,
            n == rs@.len(),
            rv == resolved_view(rs@),
            rv.len() == n,
            forall|j: int|
                0 <= j < rs@.len() ==> rv[j] == (kv_view(#[trigger] rs@[j].0@), opt_view(
                    rs@[j].1,
                )),
            s@ == base + spec_cfg_blocks(rv.take(i as int)),
        decreases n - i,
    {
        proof {
            crate::strutil::lemma_take_push(rv, i as int);
            assert(rv.take(i + 1).drop_last() =~= rv.take(i as int));
            assert(rv.take(i + 1).last() == rv[i as int]);
        }
        s.append("    {\n");
        let cfg = &rs[i].0;
        let ghost cv = kv_view(cfg@);
        let ghost base2 = s@;
        let m = cfg.len();
        let mut j: usize = 0;
        proof {
            crate::kvmap::lemma_kv_view_index(cfg@);
            assert(cv.take(0) =~= Seq::<(Seq<char>, Seq<char>)>::empty());
            assert(s@ =~= base2 + spec_cfg_lines(cv.take(0)));
        }
        while j < m
            invariant
                j <= m,
                m == cfg@.len(),
                cv == kv_view(cfg@),
                cv.len() == m,
                forall|j2: int|
                    0 <= j2 < cfg@.len() ==> cv[j2] == ((#[trigger] cfg@[j2]).0@, cfg@[j2].1@),
                s@ == base2 + spec_cfg_lines(cv.take(j as int)),
            decreases m - j,
        {
            proof {
                crate::strutil::lemma_take_push(cv, j as int);
                assert(cv.take(j + 1).drop_last() =~= cv.take(j as int));
                assert(cv.take(j + 1).last() == cv[j as int]);
            }
            let e = &cfg[j];
            s.append("        .");
            s.append(e.0.as_str());
            s.append(" = ");
            s.append(e.1.as_str());
            s.append(",\n");
            proof {
                assert(s@ =~= base2 + spec_cfg_lines(cv.take(j + 1)));
            }
            j += 1;
        }
        s.append("    },\n");
        proof {
            assert(cv.take(m as int) =~= cv);
            assert(s@ =~= base + spec_cfg_blocks(rv.take(i + 1)));
        }
        i += 1;
    }
    proof {
        assert(rv.take(n as int) =~= rv);
    }
    s.append("};\n\n");
    let ghost base3 = s@;
    let mut i: usize = 0;
    proof {
        assert(rv.take(0) =~= Seq::<(Seq<(Seq<char>, Seq<char>)>, Option<Seq<char>>)>::empty());
        assert(s@ =~= base3 + spec_isr_lines(rv.take(0)));
    }
    while i < n
        invariant
            i <= n,
            n == rs@.len(),
            rv == resolved_view(rs@),
            rv.len() == n,
            forall|j: int|
                0 <= j < rs@.len() ==> (#[trigger] rv[j]) == (kv_view(rs@[j].0@), opt_view(
                    rs@[j].1,
                )),
            s@ == base3 + spec_isr_lines(rv.take(i as int)),
        decreases n - i,
    {
        proof {
            crate::strutil::lemma_take_push(rv, i as int);
            assert(rv.take(i + 1).drop_last() =~= rv.take(i as int));
            assert(rv.take(i + 1).last() == rv[i as int]);
            assert(rv.take(i + 1).len() - 1 == i as int);
        }
        if let Some(isr) = &rs[i].1 {
            s.append("#define UART_");
            let nn = crate::strutil::u64_to_dec(i as u64);
            s.append(nn.as_str());
            s.append("_ISR          (");
            s.append(isr.as_str());
            s.append(")\n");
            proof {
                assert(rv[i as int].1 == Some(isr@));
                assert(s@ =~= base3 + spec_isr_lines(rv.take(i + 1)));
            }
        } else {
            proof {
                assert(rv[i as int].1 is None);
                assert(s@ =~= base3 + spec_isr_lines(rv.take(i + 1)));
            }
        }
        i += 1;
    }
    proof {
        assert(rv.take(n as int) =~= rv);
    }
    s.append("#define UART_NUMOF          ARRAY_SIZE(uart_config)\n\n");
    proof {
        assert(s@ =~= spec_uart_block(rv));
    }
    s
}

/// The files of one board, or the pin name that stopped generation.  The
/// chip must be in the catalog with its peripherals section present, as the
/// caller's filtering ensures.
fn generate_riot_board(sbd: &SbdFile, board: &Board, warnings: &mut Vec<String>) -> (r: Result<
    RiotBoard,
    PinFormatError,
>)
    requires
        vk_has(spec_riot_catalog(*sbd), board.chip@),
        vk_get(spec_riot_catalog(*sbd), board.chip@)->0.peripherals is Some,
        spec_chip_cfgs_sorted(vk_get(spec_riot_catalog(*sbd), board.chip@)->0),
    ensures
        match r {
            Ok(rb) => {
                &&& rb.name@ == board.name@
                &&& spec_riot_board_files(
                    *board,
                    vk_get(spec_riot_catalog(*sbd), board.chip@)->0,
                ) == Ok::<_, Seq<char>>(rb.files@)
                &&& final(warnings).deep_view() == old(warnings).deep_view()
                    + spec_uart_warnings(
                    board.name@,
                    spec_board_uarts(*board),
                    spec_pool_of(vk_get(spec_riot_catalog(*sbd), board.chip@)->0).len() as int,
                )
            },
            Err(pe) => spec_riot_board_files(
                *board,
                vk_get(spec_riot_catalog(*sbd), board.chip@)->0,
            ) == Err::<Seq<(Seq<char>, Seq<char>)>, _>(pe.name@),
        },
{
    let ghost catalogv = spec_riot_catalog(*sbd);
    let catalog: &Vec<(String, RiotChipMapEntry)> = match &sbd.riot {
        Some(r) => &r.chips,
        None => {
            proof {
                assert(catalogv.len() == 0);
                assert(false);
            }
            vstd::pervasive::unreached()
        },
    };
    proof {
        assert(catalog@ == catalogv);
    }
    let idx = match crate::kvmap::kv_find(catalog, board.chip.as_str()) {
        Some(i) => i,
        None => {
            proof {
                crate::kvmap::lemma_vk_get_none(catalogv, board.chip@);
                crate::kvmap::lemma_vk_get_some_iff(catalogv, board.chip@);
                assert(false);
            }
            vstd::pervasive::unreached()
        },
    };
    let riot_chip = &catalog[idx].1;
    let ghost e = vk_get(catalogv, board.chip@)->0;
    proof {
        crate::kvmap::lemma_vk_get_at(catalogv, board.chip@, idx as int);
        assert(*riot_chip == e);
    }
    let mut riot_board = RiotBoard::new(board.name.as_str());

    let mut periph_conf_h = CFile::new_header();
    let mut board_h = CFile::new_header();
    periph_conf_h.headers.push("\"kernel_defines.h\"".to_owned());
    periph_conf_h.headers.push("\"periph_cpu.h\"".to_owned());
    board_h.headers.push("\"cpu.h\"".to_owned());
    proof {
        assert(periph_conf_h.headers.deep_view() =~= seq![
            "\"kernel_defines.h\""@,
            "\"periph_cpu.h\""@,
        ]);
        assert(board_h.headers.deep_view() =~= seq!["\"cpu.h\""@]);
        assert(periph_conf_h.content_snips.deep_view() =~= Seq::<Seq<char>>::empty());
        assert(board_h.content_snips.deep_view() =~= Seq::<Seq<char>>::empty());
    }

    // file quirks from the chip catalog
    match crate::kvmap::kv_find(&riot_chip.quirks, "periph_conf.h") {
        Some(qi) => {
            proof {
                crate::kvmap::lemma_vk_get_at(riot_chip.quirks@, "periph_conf.h"@, qi as int);
            }
            let q = &riot_chip.quirks[qi].1;
            push_snips(&mut periph_conf_h.content_snips, &q.body);
            proof {
                assert(periph_conf_h.content_snips.deep_view() =~= spec_quirk_snips(
                    e,
                    "periph_conf.h"@,
                ));
            }
        },
        None => {
            proof {
                crate::kvmap::lemma_vk_get_none(riot_chip.quirks@, "periph_conf.h"@);
                assert(periph_conf_h.content_snips.deep_view() =~= spec_quirk_snips(
                    e,
                    "periph_conf.h"@,
                ));
            }
        },
    }
    match crate::kvmap::kv_find(&riot_chip.quirks, "board.h") {
        Some(qi) => {
            proof {
                crate::kvmap::lemma_vk_get_at(riot_chip.quirks@, "board.h"@, qi as int);
            }
            let q = &riot_chip.quirks[qi].1;
            push_snips(&mut board_h.content_snips, &q.body);
            proof {
                assert(board_h.content_snips.deep_view() =~= spec_quirk_snips(e, "board.h"@));
            }
        },
        None => {
            proof {
                crate::kvmap::lemma_vk_get_none(riot_chip.quirks@, "board.h"@);
                assert(board_h.content_snips.deep_view() =~= spec_quirk_snips(e, "board.h"@));
            }
        },
    }
    let ghost base_snips = periph_conf_h.content_snips.deep_view();

    // UART requirements: the debugger's first, then the board's own
    let mut makefile_inc = String::new();
    let mut uart_list: Vec<&Uart> = Vec::new();
    if let Some(debugger) = &board.debugger {
        makefile_inc.append("PROGRAMMER ?= ");
        makefile_inc.append(debugger.type_.as_str());
        makefile_inc.append("\n");
        if let Some(u) = &debugger.uart {
            uart_list.push(u);
        }
    }
    proof {
        lemma_urefs_view_index(uart_list@);
        assert(makefile_inc@ =~= spec_makefile_inc(*board));
        assert(urefs_view(uart_list@) =~= (match board.debugger {
            Some(d) => match d.uart {
                Some(u) => seq![u],
                None => Seq::<Uart>::empty(),
            },
            None => Seq::<Uart>::empty(),
        }));
    }
    let ghost head_uarts = urefs_view(uart_list@);
    if let Some(us) = &board.uarts {
        let mut i: usize = 0;
        while i < us.len()
            invariant
                i <= us@.len(),
                uart_list@.len() == head_uarts.len() + i,
                urefs_view(uart_list@) =~= head_uarts + us@.take(i as int),
            decreases us@.len() - i,
        {
            let ghost ul0 = uart_list@;
            uart_list.push(&us[i]);
            proof {
                lemma_urefs_view_index(uart_list@);
                lemma_urefs_view_index(ul0);
                crate::strutil::lemma_take_push(us@, i as int);
                assert(uart_list@.drop_last() =~= ul0);
                assert(*uart_list@.last() == us@[i as int]);
                assert(urefs_view(uart_list@) =~= urefs_view(ul0).push(us@[i as int]));
                assert(urefs_view(uart_list@) =~= head_uarts + us@.take(i + 1));
            }
            i += 1;
        }
        proof {
            assert(us@.take(us@.len() as int) =~= us@);
        }
    }
    proof {
        assert(urefs_view(uart_list@) =~= spec_board_uarts(*board));
    }
    let pool: &Vec<(String, RiotChipUartPeripheral)> = match &riot_chip.peripherals {
        Some(p) => &p.uarts,
        None => {
            proof {
                assert(false);
            }
            vstd::pervasive::unreached()
        },
    };
    proof {
        assert(pool@ == spec_pool_of(e));
    }
    let uarts_configured = match resolve_uarts(board.name.as_str(), &uart_list, pool, warnings) {
        Ok(out) => out,
        Err(pe) => {
            return Err(pe);
        },
    };
    let ghost rs = resolved_view(uarts_configured@);

    if uarts_configured.len() > 0 {
        let block = render_uart_block(&uarts_configured);
        let ghost sn0 = periph_conf_h.content_snips.deep_view();
        periph_conf_h.content_snips.push(block);
        proof {
            lemma_resolved_view_index(uarts_configured@);
            assert(periph_conf_h.content_snips.deep_view() =~= sn0.push(spec_uart_block(rs)));
            assert(periph_conf_h.content_snips.deep_view() =~= base_snips + seq![
                spec_uart_block(rs),
            ]);
        }
    } else {
        proof {
            lemma_resolved_view_index(uarts_configured@);
            assert(periph_conf_h.content_snips.deep_view() =~= base_snips + Seq::<
                Seq<char>,
            >::empty());
        }
    }

    // the Makefile fragments
    let mut makefile = String::new();
    makefile.append("MODULE = board");
    makefile.append("\ninclu");
    makefile.append("de $(RIOTBASE)/Makefile.base\n");
    let makefile_dep = String::new();
    let mut makefile_features = String::new();
    makefile_features.append("CPU = ");
    makefile_features.append(riot_chip.cpu.as_str());
    makefile_features.append("\n");
    makefile_features.append("CPU_MODEL = ");
    makefile_features.append(riot_chip.cpu_model.as_str());
    makefile_features.append("\n");
    if uarts_configured.len() > 0 {
        makefile_features.append("FEATURES_PROVIDED += periph_uart\n");
    }
    proof {
        assert(makefile@ =~= spec_makefile());
        assert(makefile_features@ =~= spec_makefile_features(e, rs.len() > 0));
        assert(makefile_dep@ =~= Seq::<char>::empty());
    }

    let periph_text = periph_conf_h.render();
    let board_text = board_h.render();
    proof {
        assert(periph_text@ == spec_periph_conf(e, rs));
        assert(board_text@ == spec_board_h(e));
    }
    let mut path1 = String::new();
    path1.append("inclu");
    path1.append("de/periph_conf.h");
    riot_board.files.insert(path1, periph_text);
    let mut path2 = String::new();
    path2.append("inclu");
    path2.append("de/board.h");
    riot_board.files.insert(path2, board_text);
    riot_board.files.insert("Makefile".to_owned(), makefile);
    riot_board.files.insert("Makefile.dep".to_owned(), makefile_dep);
    riot_board.files.insert("Makefile.features".to_owned(), makefile_features);
    let mut path6 = String::new();
    path6.append("Makefile.inclu");
    path6.append("de");
    riot_board.files.insert(path6, makefile_inc);
    proof {
        assert(spec_riot_board_files(*board, e) == Ok::<_, Seq<char>>(riot_board.files@));
    }
    Ok(riot_board)
}

/// The whole output tree built over `fm`, walking the boards in model
/// order: a board whose chip the catalog declares contributes its directory
/// under its name; any other board contributes nothing; a board's error
/// stops everything.
pub open spec fn spec_riot_dir_over(
    fm: Seq<(Seq<char>, Seq<char>)>,
    boards: Seq<Board>,
    catalog: Seq<(String, RiotChipMapEntry)>,
) -> Result<Seq<(Seq<char>, Seq<char>)>, Seq<char>>
    decreases boards.len(),
{
    if boards.len() == 0 {
        Ok(fm)
    } else {
        match spec_riot_dir_over(fm, boards.drop_last(), catalog) {
            Ok(fm2) => if vk_has(catalog, boards.last().chip@) {
                match spec_riot_board_files(boards.last(), vk_get(catalog, boards.last().chip@)->0) {
                    Ok(bf) => Ok(
                        crate::filemap::fm_extend_subdir(fm2, boards.last().name@, bf),
                    ),
                    Err(e) => Err(e),
                }
            } else {
                Ok(fm2)
            },
            Err(e) => Err(e),
        }
    }
}

/// The output tree of this backend.
pub open spec fn spec_riot_dir(sbd: SbdFile) -> Result<Seq<(Seq<char>, Seq<char>)>, Seq<char>> {
    spec_riot_dir_over(
        Seq::empty(),
        crate::ariel::spec_boards(sbd),
        spec_riot_catalog(sbd),
    )
}

/// A board whose chip the catalog does not declare contributes nothing to
/// the output tree, and does not stop generation.
pub proof fn lemma_unknown_chip_board_dropped(
    fm: Seq<(Seq<char>, Seq<char>)>,
    boards: Seq<Board>,
    catalog: Seq<(String, RiotChipMapEntry)>,
    b: Board,
)
    requires
        !vk_has(catalog, b.chip@),
    ensures
        spec_riot_dir_over(fm, boards.push(b), catalog) == spec_riot_dir_over(
            fm,
            boards,
            catalog,
        ),
{
    assert(boards.push(b).drop_last() =~= boards);
    assert(boards.push(b).last() == b);
}

/// An error among the first boards settles the whole walk.
proof fn lemma_dir_over_err(
    fm: Seq<(Seq<char>, Seq<char>)>,
    boards: Seq<Board>,
    catalog: Seq<(String, RiotChipMapEntry)>,
    j: int,
)
    requires
        0 <= j <= boards.len(),
        spec_riot_dir_over(fm, boards.take(j), catalog) is Err,
    ensures
        spec_riot_dir_over(fm, boards, catalog) == spec_riot_dir_over(
            fm,
            boards.take(j),
            catalog,
        ),
    decreases boards.len(),
{
    if j == boards.len() {
        assert(boards.take(j) =~= boards);
    } else {
        assert(boards.drop_last().take(j) =~= boards.take(j));
        lemma_dir_over_err(fm, boards.drop_last(), catalog, j);
    }
}

/// One warning per board whose chip the catalog lacks, in model order.
pub open spec fn spec_riot_skip_warnings(
    boards: Seq<Board>,
    catalog: Seq<(String, RiotChipMapEntry)>,
) -> Seq<Seq<char>>
    decreases boards.len(),
{
    if boards.len() == 0 {
        Seq::empty()
    } else {
        spec_riot_skip_warnings(boards.drop_last(), catalog) + (if vk_has(
            catalog,
            boards.last().chip@,
        ) {
            Seq::empty()
        } else {
            seq![
                "warning: skipping board "@ + boards.last().name@ + ", unknown chip "@
                    + boards.last().chip@,
            ]
        })
    }
}

/// The UART skip warnings of every retained board, in model order.
pub open spec fn spec_riot_uart_warns(
    boards: Seq<Board>,
    catalog: Seq<(String, RiotChipMapEntry)>,
) -> Seq<Seq<char>>
    decreases boards.len(),
{
    if boards.len() == 0 {
        Seq::empty()
    } else {
        spec_riot_uart_warns(boards.drop_last(), catalog) + (if vk_has(
            catalog,
            boards.last().chip@,
        ) {
            spec_uart_warnings(
                boards.last().name@,
                spec_board_uarts(boards.last()),
                spec_pool_of(vk_get(catalog, boards.last().chip@)->0).len() as int,
            )
        } else {
            Seq::empty()
        })
    }
}

/// Whether any board's chip is in the catalog.
pub open spec fn spec_any_riot_board(
    boards: Seq<Board>,
    catalog: Seq<(String, RiotChipMapEntry)>,
) -> bool {
    exists|i: int| 0 <= i < boards.len() && vk_has(catalog, (#[trigger] boards[i]).chip@)
}

/// The warnings this backend's generation gives on success: an empty
/// catalog, each skipped board, an empty result, then each retained board's
/// UART warnings, in that order.
pub open spec fn spec_riot_warnings(sbd: SbdFile) -> Seq<Seq<char>> {
    let catalog = spec_riot_catalog(sbd);
    let boards = crate::ariel::spec_boards(sbd);
    (if catalog.len() == 0 {
        seq!["warning: No supported chips defined for RIOT OS"@]
    } else {
        Seq::empty()
    }) + spec_riot_skip_warnings(boards, catalog) + (if !spec_any_riot_board(boards, catalog) {
        seq!["warning: No boards defined for Riot OS"@]
    } else {
        Seq::empty()
    }) + spec_riot_uart_warns(boards, catalog)
}

/// Every retained board's chip entry has its peripherals section present,
/// with every UART configuration a sorted map.  What the keyed-map origin
/// of the catalog gives, and what generation leans on.
pub open spec fn spec_riot_ready(sbd: SbdFile) -> bool {
    forall|i: int|
        0 <= i < crate::ariel::spec_boards(sbd).len() && vk_has(
            spec_riot_catalog(sbd),
            (#[trigger] crate::ariel::spec_boards(sbd)[i]).chip@,
        ) ==> {
            let e = vk_get(
                spec_riot_catalog(sbd),
                crate::ariel::spec_boards(sbd)[i].chip@,
            )->0;
            e.peripherals is Some && spec_chip_cfgs_sorted(e)
        }
}

/// What readiness follows from: the model builder keeps every catalog
/// entry's configuration maps sorted, so once every retained board's chip
/// declares its peripherals, generation's footing holds.
pub proof fn lemma_ready_from_catalog(sbd: SbdFile)
    requires
        forall|i: int|
            0 <= i < spec_riot_catalog(sbd).len() ==> spec_chip_cfgs_sorted(
                (#[trigger] spec_riot_catalog(sbd)[i]).1,
            ),
        forall|i: int|
            0 <= i < crate::ariel::spec_boards(sbd).len() && vk_has(
                spec_riot_catalog(sbd),
                (#[trigger] crate::ariel::spec_boards(sbd)[i]).chip@,
            ) ==> vk_get(
                spec_riot_catalog(sbd),
                crate::ariel::spec_boards(sbd)[i].chip@,
            )->0.peripherals is Some,
    ensures
        spec_riot_ready(sbd),
{
    let catalog = spec_riot_catalog(sbd);
    let boards = crate::ariel::spec_boards(sbd);
    assert forall|i: int|
        0 <= i < boards.len() && vk_has(catalog, (#[trigger] boards[i]).chip@) implies {
        let e = vk_get(catalog, boards[i].chip@)->0;
        e.peripherals is Some && spec_chip_cfgs_sorted(e)
    } by {
        crate::kvmap::lemma_vk_get_some_iff(catalog, boards[i].chip@);
        crate::kvmap::lemma_vk_get_index(catalog, boards[i].chip@);
        let j = choose|j: int|
            0 <= j < catalog.len() && (#[trigger] catalog[j]).0@ == boards[i].chip@
                && catalog[j].1 == vk_get(catalog, boards[i].chip@)->0;
        assert(spec_chip_cfgs_sorted(catalog[j].1));
    }
}

/// The output tree of this backend and the warnings generation gave, or the
/// pin name that stopped it.
pub fn render_riot_boards_dir(sbd: &SbdFile) -> (r: Result<
    (FileMap, Vec<String>),
    PinFormatError,
>)
    requires
        spec_riot_ready(*sbd),
    ensures
        match r {
            Ok(p) => spec_riot_dir(*sbd) == Ok::<_, Seq<char>>(p.0@) && p.1.deep_view()
                == spec_riot_warnings(*sbd),
            Err(pe) => spec_riot_dir(*sbd) is Err && spec_riot_dir(*sbd)->Err_0 == pe.name@,
        },
{
    let empty_catalog: Vec<(String, RiotChipMapEntry)> = Vec::new();
    let empty_boards: Vec<Board> = Vec::new();
    let catalog: &Vec<(String, RiotChipMapEntry)> = match &sbd.riot {
        Some(r) => &r.chips,
        None => &empty_catalog,
    };
    let boards: &Vec<Board> = match &sbd.boards {
        Some(b) => b,
        None => &empty_boards,
    };
    proof {
        assert(catalog@ =~= spec_riot_catalog(*sbd));
        assert(boards@ =~= crate::ariel::spec_boards(*sbd));
    }
    let ghost catalogv = catalog@;
    let ghost boardsv = boards@;
    let mut warnings: Vec<String> = Vec::new();
    if catalog.is_empty() {
        warnings.push("warning: No supported chips defined for RIOT OS".to_owned());
    }
    let ghost w1 = warnings.deep_view();
    proof {
        assert(boardsv.take(0) =~= Seq::<Board>::empty());
        assert(warnings.deep_view() =~= w1 + spec_riot_skip_warnings(boardsv.take(0), catalogv));
    }
    let n = boards.len();
    let mut i: usize = 0;
    while i < n
        invariant
            i <= n,
            n == boards@.len(),
            boards@ == boardsv,
            catalog@ == catalogv,
            warnings.deep_view() == w1 + spec_riot_skip_warnings(boardsv.take(i as int), catalogv),
        decreases n - i,
    {
        proof {
            crate::strutil::lemma_take_push(boardsv, i as int);
            assert(boardsv.take(i + 1).drop_last() =~= boardsv.take(i as int));
            assert(boardsv.take(i + 1).last() == boardsv[i as int]);
        }
        let board = &boards[i];
        let known = match crate::kvmap::kv_find(catalog, board.chip.as_str()) {
            Some(_) => {
                proof {
                    crate::kvmap::lemma_vk_get_some_iff(catalogv, boardsv[i as int].chip@);
                    assert(vk_has(catalogv, boardsv[i as int].chip@));
                }
                true
            },
            None => {
                proof {
                    crate::kvmap::lemma_vk_get_none(catalogv, boardsv[i as int].chip@);
                    crate::kvmap::lemma_vk_get_some_iff(catalogv, boardsv[i as int].chip@);
                    assert(!vk_has(catalogv, boardsv[i as int].chip@));
                }
                false
            },
        };
        if !known {
            let mut w = String::new();
            w.append("warning: skipping board ");
            w.append(board.name.as_str());
            w.append(", unknown chip ");
            w.append(board.chip.as_str());
            let ghost wv = warnings.deep_view();
            warnings.push(w);
            proof {
                assert(warnings.deep_view() =~= wv.push(
                    "warning: skipping board "@ + boardsv[i as int].name@ + ", unknown chip "@
                        + boardsv[i as int].chip@,
                ));
                assert(warnings.deep_view() =~= w1 + spec_riot_skip_warnings(
                    boardsv.take(i + 1),
                    catalogv,
                ));
            }
        } else {
            proof {
                assert(spec_riot_skip_warnings(boardsv.take(i + 1), catalogv)
                    =~= spec_riot_skip_warnings(boardsv.take(i as int), catalogv));
            }
        }
        i += 1;
    }
    proof {
        assert(boardsv.take(n as int) =~= boardsv);
    }
    let mut any_retained = false;
    let mut i: usize = 0;
    while i < n
        invariant
            i <= n,
            n == boards@.len(),
            boards@ == boardsv,
            catalog@ == catalogv,
            any_retained == exists|j: int|
                0 <= j < i && vk_has(catalogv, (#[trigger] boardsv[j]).chip@),
        decreases n - i,
    {
        let board = &boards[i];
        match crate::kvmap::kv_find(catalog, board.chip.as_str()) {
            Some(_) => {
                proof {
                    crate::kvmap::lemma_vk_get_some_iff(catalogv, boardsv[i as int].chip@);
                }
                any_retained = true;
            },
            None => {
                proof {
                    crate::kvmap::lemma_vk_get_none(catalogv, boardsv[i as int].chip@);
                    crate::kvmap::lemma_vk_get_some_iff(catalogv, boardsv[i as int].chip@);
                }
            },
        }
        i += 1;
    }
    if !any_retained {
        warnings.push("warning: No boards defined for Riot OS".to_owned());
    }
    let ghost w2 = warnings.deep_view();
    proof {
        assert(any_retained == spec_any_riot_board(boardsv, catalogv));
        assert(w2 =~= w1 + spec_riot_skip_warnings(boardsv, catalogv) + (if !spec_any_riot_board(
            boardsv,
            catalogv,
        ) {
            seq!["warning: No boards defined for Riot OS"@]
        } else {
            Seq::<Seq<char>>::empty()
        }));
        assert(boardsv.take(0) =~= Seq::<Board>::empty());
        assert(warnings.deep_view() =~= w2 + spec_riot_uart_warns(boardsv.take(0), catalogv));
    }
    let mut files = FileMap::new();
    proof {
        assert(spec_riot_dir_over(Seq::empty(), boardsv.take(0), catalogv) == Ok::<
            _,
            Seq<char>,
        >(files@));
    }
    let mut i: usize = 0;
    while i < n
        invariant
            i <= n,
            n == boards@.len(),
            boards@ == boardsv,
            catalog@ == catalogv,
            spec_riot_ready(*sbd),
            catalogv == spec_riot_catalog(*sbd),
            boardsv == crate::ariel::spec_boards(*sbd),
            w2 == warnings.deep_view().take(w2.len() as int) && w2.len()
                <= warnings.deep_view().len(),
            warnings.deep_view() == w2 + spec_riot_uart_warns(boardsv.take(i as int), catalogv),
            spec_riot_dir_over(Seq::empty(), boardsv.take(i as int), catalogv) == Ok::<
                _,
                Seq<char>,
            >(files@),
        decreases n - i,
    {
        proof {
            crate::strutil::lemma_take_push(boardsv, i as int);
            assert(boardsv.take(i + 1).drop_last() =~= boardsv.take(i as int));
            assert(boardsv.take(i + 1).last() == boardsv[i as int]);
        }
        let board = &boards[i];
        match crate::kvmap::kv_find(catalog, board.chip.as_str()) {
            Some(_) => {
                proof {
                    crate::kvmap::lemma_vk_get_some_iff(catalogv, boardsv[i as int].chip@);
                    assert(vk_has(catalogv, boardsv[i as int].chip@));
                }
                let ghost wpre = warnings.deep_view();
                match generate_riot_board(sbd, board, &mut warnings) {
                    Ok(rb) => {
                        files.extend_subdir(rb.name.as_str(), rb.files);
                        proof {
                            assert(warnings.deep_view() =~= w2 + spec_riot_uart_warns(
                                boardsv.take(i + 1),
                                catalogv,
                            ));
                        }
                    },
                    Err(pe) => {
                        proof {
                            assert(spec_riot_dir_over(
                                Seq::empty(),
                                boardsv.take(i + 1),
                                catalogv,
                            ) is Err);
                            lemma_dir_over_err(Seq::empty(), boardsv, catalogv, i + 1);
                        }
                        return Err(pe);
                    },
                }
            },
            None => {
                proof {
                    crate::kvmap::lemma_vk_get_none(catalogv, boardsv[i as int].chip@);
                    crate::kvmap::lemma_vk_get_some_iff(catalogv, boardsv[i as int].chip@);
                    assert(!vk_has(catalogv, boardsv[i as int].chip@));
                    assert(spec_riot_uart_warns(boardsv.take(i + 1), catalogv)
                        =~= spec_riot_uart_warns(boardsv.take(i as int), catalogv));
                }
            },
        }
        i += 1;
    }
    proof {
        assert(boardsv.take(n as int) =~= boardsv);
        assert(warnings.deep_view() =~= spec_riot_warnings(*sbd));
    }
    Ok((files, warnings))
}

/// Generation for this backend: the output tree and the warnings, from the
/// merged model alone, or the pin name that stopped it.  Reading the input
/// tree and writing the output stay with the caller.
pub fn generate(sbd: &SbdFile) -> (r: Result<(FileMap, Vec<String>), PinFormatError>)
    requires
        spec_riot_ready(*sbd),
    ensures
        match r {
            Ok(p) => spec_riot_dir(*sbd) == Ok::<_, Seq<char>>(p.0@) && p.1.deep_view()
                == spec_riot_warnings(*sbd),
            Err(pe) => spec_riot_dir(*sbd) is Err && spec_riot_dir(*sbd)->Err_0 == pe.name@,
        },
{
    render_riot_boards_dir(sbd)
}

/// The quirk round trip: for a board with no debugger and no UART list,
/// generation always succeeds; its peripheral configuration header holds
/// exactly the snippets the catalog registers under that filename, with no
/// UART array; and its feature Makefile provides no UART feature.
pub proof fn lemma_quirk_round_trip(b: Board, e: RiotChipMapEntry)
    requires
        b.debugger is None,
        b.uarts is None,
    ensures
        spec_riot_board_files(b, e) is Ok,
        spec_resolve(spec_board_uarts(b), spec_pool_of(e), 0) == Ok::<_, Seq<char>>(Seq::<
            (Seq<(Seq<char>, Seq<char>)>, Option<Seq<char>>),
        >::empty()),
        spec_periph_conf(e, spec_resolve(spec_board_uarts(b), spec_pool_of(e), 0)->Ok_0)
            == spec_cfile_parts(
            true,
            true,
            seq!["\"kernel_defines.h\""@, "\"periph_cpu.h\""@],
            spec_quirk_snips(e, "periph_conf.h"@),
        ),
        spec_makefile_features(
            e,
            spec_resolve(spec_board_uarts(b), spec_pool_of(e), 0)->Ok_0.len() > 0,
        ) == "CPU = "@ + e.cpu@ + "\n"@ + "CPU_MODEL = "@ + e.cpu_model@ + "\n"@,
{
    assert(spec_board_uarts(b) =~= Seq::<Uart>::empty());
    let rs = spec_resolve(spec_board_uarts(b), spec_pool_of(e), 0)->Ok_0;
    assert(spec_quirk_snips(e, "periph_conf.h"@) + Seq::<Seq<char>>::empty() =~= spec_quirk_snips(
        e,
        "periph_conf.h"@,
    ));
    assert(spec_makefile_features(e, false) == "CPU = "@ + e.cpu@ + "\n"@ + "CPU_MODEL = "@
        + e.cpu_model@ + "\n"@ + Seq::<char>::empty());
    assert("CPU = "@ + e.cpu@ + "\n"@ + "CPU_MODEL = "@ + e.cpu_model@ + "\n"@ + Seq::<
        char,
    >::empty() =~= "CPU = "@ + e.cpu@ + "\n"@ + "CPU_MODEL = "@ + e.cpu_model@ + "\n"@);
}

} // verus!
