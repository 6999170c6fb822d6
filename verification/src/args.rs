//! The tool's arguments as plain values, and one processing pass under them.
//! The surrounding command line and I/O live outside the library; they hand
//! in the argument values and the document text.
use vstd::prelude::*;

use crate::batch::process_spec;
use crate::batch::process_toml;
use crate::errors::TtError;
use crate::parse::parsed_doc;

verus! {

/// The arguments: which file to read (none means standard input), the path
/// delimiter, the output-variable prefix, a default document text, whether
/// to write the default where the file is missing, the required-marker
/// prefix, whether to print the shell boilerplate instead, and the keys to
/// resolve.
pub struct Args {
    pub file: Option<String>,
    pub delim: String,
    pub output_prefix: Option<String>,
    pub default: Option<String>,
    pub write_missing: bool,
    pub required_prefix: String,
    pub generate: bool,
    pub keys: Vec<String>,
}

/// The output prefix an argument set is processed under: the given one, or
/// empty where none was given.
pub open spec fn effective_prefix(args: Args) -> Seq<char> {
    match args.output_prefix {
        Option::Some(p) => p@,
        Option::None => Seq::<char>::empty(),
    }
}

/// One processing pass under the given arguments: the keys are resolved
/// against the document text with the arguments' prefixes and delimiter.
pub fn process_args(args: &Args, toml_contents: &str) -> (r: Result<String, TtError>)
    ensures
        match r {
            Result::Ok(out) => parsed_doc(toml_contents@) matches Some(es) && process_spec(
                es,
                args.keys.deep_view(),
                effective_prefix(*args),
                args.required_prefix@,
                args.delim@,
            ) == Ok::<Seq<char>, Seq<char>>(out@),
            Result::Err(e) => match e {
                TtError::Parse(_) => parsed_doc(toml_contents@) is None,
                TtError::MissingRequiredKey(name) => parsed_doc(toml_contents@) matches Some(es)
                    && process_spec(
                    es,
                    args.keys.deep_view(),
                    effective_prefix(*args),
                    args.required_prefix@,
                    args.delim@,
                ) == Err::<Seq<char>, Seq<char>>(name@),
            },
        },
{
    let op: &str = match &args.output_prefix {
        Option::Some(p) => p.as_str(),
        Option::None => "",
    };
    proof {
        reveal_strlit("");
        assert(""@ =~= Seq::<char>::empty());
        assert(op@ == effective_prefix(*args));
    }
    let keys = args.keys.clone();
    proof {
        assert forall|i: int| 0 <= i < keys@.len() implies (#[trigger] keys@[i])@
            == args.keys@[i]@ by {
            assert(vstd::pervasive::cloned::<String>(args.keys@[i], keys@[i]));
        }
        crate::text::lemma_dv_index(&keys);
        crate::text::lemma_dv_index(&args.keys);
        assert(keys.deep_view() =~= args.keys.deep_view());
    }
    process_toml(toml_contents, keys, op, args.required_prefix.as_str(), args.delim.as_str())
}

} // verus!
