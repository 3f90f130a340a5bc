//! Reading the search settings out of the raw argument list.
use vstd::prelude::*;
use vstd::utf8::{decode_utf8, encode_utf8};

verus! {

/// Why the argument list could not be turned into a [`Config`].
#[derive(Debug, Clone, Copy, PartialEq, Eq, Structural)]
pub enum ConfigError {
    /// Fewer than a program name, a file name and a query were given.
    MissingArguments,
}

impl ConfigError {
    /// The text shown to the user for this error.
    pub fn message(&self) -> (r: &'static str)
        ensures
            r@ == "Not enough arguments"@,
    {
        match self {
            ConfigError::MissingArguments => "Not enough arguments",
        }
    }
}

/// The fourth argument that turns on case-insensitive matching: exactly `i`.
pub open spec fn is_insensitive_flag(arg: Seq<char>) -> bool {
    arg == seq!['i']
}

/// What one run searches for, borrowed from the argument list.
pub struct Config<'a> {
    pub query: &'a str,
    pub filename: &'a str,
    pub case_sensitive: bool,
}

impl<'a> Config<'a> {
    /// Reads `[program, filename, query, flag?, ...]`: the file name at
    /// position 1, the query at position 2, and case-insensitive mode when a
    /// fourth argument is exactly `i`. Anything else there is ignored.
    pub fn new(args: &'a [String]) -> (r: Result<Config<'a>, ConfigError>)
        ensures
            args@.len() < 3 <==> r is Err,
            r is Err ==> r->Err_0 == ConfigError::MissingArguments,
            r is Ok ==> {
                let c = r->Ok_0;
                &&& c.filename@ == args@[1]@
                &&& c.query@ == args@[2]@
                &&& c.case_sensitive == !(args@.len() >= 4 && is_insensitive_flag(args@[3]@))
            },
    {
        if args.len() < 3 {
            return Err(ConfigError::MissingArguments);
        }
        let filename = args[1].as_str();
        let query = args[2].as_str();
        let mut case_sensitive = true;
        if args.len() >= 4 && is_flag_i(args[3].as_str()) {
            case_sensitive = false;
        }
        Ok(Config { query, filename, case_sensitive })
    }
}

/// Whether `arg` is the one-letter string `i`.
fn is_flag_i(arg: &str) -> (r: bool)
    ensures
        r == is_insensitive_flag(arg@),
{
    let bytes = arg.as_bytes();
    proof {
        broadcast use vstd::utf8::encode_utf8_decode_utf8;

        lemma_encode_letter_i();
        assert(decode_utf8(encode_utf8(arg@)) == arg@);
        assert(decode_utf8(encode_utf8(seq!['i'])) == seq!['i']);
    }
    bytes.len() == 1 && bytes[0] == 0x69u8
}

/// The letter `i` is the single byte 0x69 in UTF-8.
proof fn lemma_encode_letter_i()
    ensures
        encode_utf8(seq!['i']) =~= seq![0x69u8],
{
    assert(0x69u32 & 0x7Fu32 == 0x69u32) by (bit_vector);
    reveal_with_fuel(encode_utf8, 2);
    assert(seq!['i'].drop_first() =~= Seq::<char>::empty());
}

} // verus!
