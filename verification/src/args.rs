//! The program's command-line arguments: the record the front end fills
//! and the scan that fills it.

use vstd::prelude::*;
use vstd::string::StringSliceAdditionalSpecFns;

verus! {

use crate::json::bytes_eq;

/// The command-line arguments: an optional server address and the two
/// informational flags.
#[derive(Debug, PartialEq, Eq)]
pub struct Args {
    /// The server address to connect to, when one was given.
    pub flag_host: Option<Vec<u8>>,
    /// Whether usage help was asked for.
    pub flag_help: bool,
    /// Whether the version was asked for.
    pub flag_version: bool,
}

/// The abstract reading of an argument record.
pub ghost struct ArgsView {
    pub host: Option<Seq<u8>>,
    pub help: bool,
    pub version: bool,
}

impl Args {
    /// The abstract reading of this record.
    pub open spec fn view(self) -> ArgsView {
        ArgsView {
            host: match self.flag_host {
                Some(h) => Some(h@),
                None => None,
            },
            help: self.flag_help,
            version: self.flag_version,
        }
    }
}

/// What scanning the tokens from position `i` with `acc` already read
/// yields: `--help`/`-h` and `--version` set their flags, `--host`/`-H`
/// takes the next token as the address, anything else is passed over.
pub open spec fn scan_args(toks: Seq<Seq<u8>>, i: int, acc: ArgsView) -> ArgsView
    decreases toks.len() - i,
{
    if i < 0 || i >= toks.len() {
        acc
    } else {
        let t = toks[i];
        if t == "--help".spec_bytes() || t == "-h".spec_bytes() {
            scan_args(toks, i + 1, ArgsView { help: true, ..acc })
        } else if t == "--version".spec_bytes() {
            scan_args(toks, i + 1, ArgsView { version: true, ..acc })
        } else if t == "--host".spec_bytes() || t == "-H".spec_bytes() {
            if i + 1 < toks.len() {
                scan_args(toks, i + 2, ArgsView { host: Some(toks[i + 1]), ..acc })
            } else {
                scan_args(toks, i + 1, acc)
            }
        } else {
            scan_args(toks, i + 1, acc)
        }
    }
}

/// Scans command-line tokens into an argument record, exactly as
/// [`scan_args`] reads them.
pub fn parse_args(toks: Vec<Vec<u8>>) -> (r: Args)
    ensures
        r.view() == scan_args(
            toks@.map_values(|t: Vec<u8>| t@),
            0,
            (ArgsView { host: None, help: false, version: false }),
        ),
{
    let ghost tv = toks@.map_values(|t: Vec<u8>| t@);
    let mut args = Args { flag_host: None, flag_help: false, flag_version: false };
    let mut i: usize = 0;
    while i < toks.len()
        invariant
            i <= toks@.len(),
            tv == toks@.map_values(|t: Vec<u8>| t@),
            tv.len() == toks@.len(),
            forall|k: int| 0 <= k < tv.len() ==> tv[k] == #[trigger] toks@[k]@,
            scan_args(tv, 0, (ArgsView { host: None, help: false, version: false })) == scan_args(
                tv,
                i as int,
                args.view(),
            ),
        decreases toks@.len() - i,
    {
        let t = toks[i].as_slice();
        if bytes_eq(t, "--help".as_bytes()) || bytes_eq(t, "-h".as_bytes()) {
            args.flag_help = true;
            i = i + 1;
        } else if bytes_eq(t, "--version".as_bytes()) {
            args.flag_version = true;
            i = i + 1;
        } else if bytes_eq(t, "--host".as_bytes()) || bytes_eq(t, "-H".as_bytes()) {
            if i + 1 < toks.len() {
                let ghost pre = args.view();
                let host = crate::json::bytes_of(toks[i + 1].as_slice());
                args.flag_host = Some(host);
                proof {
                    assert(args.view() == (ArgsView { host: Some(tv[i + 1]), ..pre }));
                }
                i = i + 2;
            } else {
                i = i + 1;
            }
        } else {
            i = i + 1;
        }
    }
    args
}

} // verus!
