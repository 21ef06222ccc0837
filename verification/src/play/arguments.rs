//! The command line of the interactive program.
use crate::number::{parse_bytes, parse_u64};
use crate::text::same;
use vstd::prelude::*;
use vstd::string::*;

verus! {

/// What the interactive program is asked to do.
#[derive(Clone, Debug)]
pub struct PlayArgs {
    /// Generate from this and exit.
    pub prompt: Option<String>,
    /// The tokenizer's file.
    pub tokenizer: String,
    /// Where the shards are.
    pub corpus: String,
    /// The parameter dump.
    pub checkpoint: String,
    /// Canvas length.
    pub seq_len: usize,
    /// Denoising steps.
    pub steps: usize,
    /// Index documents to load.
    pub max_docs: usize,
    /// Training documents.
    pub train_docs: usize,
    /// Parameter seed.
    pub seed: u64,
    /// Train even where there is a checkpoint.
    pub train: bool,
    /// Backbone steps.
    pub pretrain_steps: usize,
    /// Retrieval-path steps.
    pub train_steps: usize,
    /// Every learning rate that was given, as spelled. The last one counts.
    pub rates: Vec<String>,
}

/// A command line of the interactive program, as far as it has been read.
pub struct PlayChoices {
    /// Generate from this and exit.
    pub prompt: Option<Seq<char>>,
    /// The tokenizer's file.
    pub tokenizer: Seq<char>,
    /// Where the shards are.
    pub corpus: Seq<char>,
    /// The parameter dump.
    pub checkpoint: Seq<char>,
    /// Canvas length.
    pub seq_len: nat,
    /// Denoising steps.
    pub steps: nat,
    /// Index documents to load.
    pub max_docs: nat,
    /// Training documents.
    pub train_docs: nat,
    /// Parameter seed.
    pub seed: nat,
    /// Train even where there is a checkpoint.
    pub train: bool,
    /// Backbone steps.
    pub pretrain_steps: nat,
    /// Retrieval-path steps.
    pub train_steps: nat,
    /// Every learning rate that was given, as spelled.
    pub rates: Seq<Seq<char>>,
}

/// The count an argument spells, if it spells one.
pub open spec fn count_at(value: Seq<char>) -> Option<nat> {
    crate::prepare::number_at(value, usize::MAX as nat)
}

/// The seed that bytes spell: hexadecimal behind `0x` or `0X`, and decimal
/// otherwise.
pub open spec fn seed_in(bytes: Seq<u8>) -> Option<nat> {
    if bytes.len() >= 2 && bytes[0] == 0x30 && (bytes[1] == 0x78 || bytes[1] == 0x58) {
        crate::number::number_in(bytes.skip(2), 16, u64::MAX as nat)
    } else {
        crate::number::number_in(bytes, 10, u64::MAX as nat)
    }
}

/// The seed an argument spells.
pub fn parse_seed(text: &str) -> (seed: Option<u64>)
    ensures
        seed is Some <==> seed_in(vstd::utf8::encode_utf8(text@)) is Some,
        seed is Some ==> seed->0 == seed_in(vstd::utf8::encode_utf8(text@))->0,
{
    let bytes: &[u8] = text.as_bytes();
    if bytes.len() >= 2 && bytes[0] == 0x30 && (bytes[1] == 0x78 || bytes[1] == 0x58) {
        let digits: &[u8] = vstd::slice::slice_subrange(bytes, 2, bytes.len());
        proof {
            assert(digits@ =~= bytes@.skip(2));
        }
        parse_bytes(digits, 16, u64::MAX)
    } else {
        parse_bytes(bytes, 10, u64::MAX)
    }
}

impl PlayChoices {
    /// What stands before anything is read.
    pub open spec fn unread() -> PlayChoices {
        PlayChoices {
            prompt: None,
            tokenizer: "corpus/tokenizer.json"@,
            corpus: "corpus"@,
            checkpoint: "runs/play.ckpt"@,
            seq_len: 128,
            steps: 16,
            max_docs: 2000,
            train_docs: 20_000,
            seed: 0xBA5E,
            train: false,
            pretrain_steps: 40_000,
            train_steps: 1_000,
            rates: Seq::empty(),
        }
    }

    /// What `flag` with `value` makes of the choices, if that is an option that
    /// takes a value.
    pub open spec fn with(self, flag: Seq<char>, value: Seq<char>) -> Option<PlayChoices> {
        if flag == "--prompt"@ {
            Some(PlayChoices { prompt: Some(value), ..self })
        } else if flag == "--tokenizer"@ {
            Some(PlayChoices { tokenizer: value, ..self })
        } else if flag == "--corpus"@ {
            Some(PlayChoices { corpus: value, ..self })
        } else if flag == "--checkpoint"@ {
            Some(PlayChoices { checkpoint: value, ..self })
        } else if flag == "--seq-len"@ {
            match count_at(value) {
                Some(seq_len) => Some(PlayChoices { seq_len, ..self }),
                None => None,
            }
        } else if flag == "--steps"@ {
            match count_at(value) {
                Some(steps) => Some(PlayChoices { steps, ..self }),
                None => None,
            }
        } else if flag == "--max-docs"@ {
            match count_at(value) {
                Some(max_docs) => Some(PlayChoices { max_docs, ..self }),
                None => None,
            }
        } else if flag == "--train-docs"@ {
            match count_at(value) {
                Some(train_docs) => Some(PlayChoices { train_docs, ..self }),
                None => None,
            }
        } else if flag == "--pretrain-steps"@ {
            match count_at(value) {
                Some(pretrain_steps) => Some(PlayChoices { pretrain_steps, ..self }),
                None => None,
            }
        } else if flag == "--train-steps"@ {
            match count_at(value) {
                Some(train_steps) => Some(PlayChoices { train_steps, ..self }),
                None => None,
            }
        } else if flag == "--lr"@ {
            Some(PlayChoices { rates: self.rates.push(value), ..self })
        } else if flag == "--seed"@ {
            match seed_in(vstd::utf8::encode_utf8(value)) {
                Some(seed) => Some(PlayChoices { seed, ..self }),
                None => None,
            }
        } else {
            None
        }
    }

    /// What the arguments make of the choices, flag by flag, if every one is an
    /// option, with its value where it takes one.
    pub open spec fn after(self, args: Seq<Seq<char>>) -> Option<PlayChoices>
        decreases args.len(),
    {
        if args.len() == 0 {
            Some(self)
        } else if args[0] == "--train"@ {
            PlayChoices { train: true, ..self }.after(args.skip(1))
        } else if args.len() == 1 {
            None
        } else {
            match self.with(args[0], args[1]) {
                Some(next) => next.after(args.skip(2)),
                None => None,
            }
        }
    }
}

impl View for PlayArgs {
    type V = PlayChoices;

    open spec fn view(&self) -> PlayChoices {
        PlayChoices {
            prompt: crate::prepare::chosen_text(self.prompt),
            tokenizer: self.tokenizer@,
            corpus: self.corpus@,
            checkpoint: self.checkpoint@,
            seq_len: self.seq_len as nat,
            steps: self.steps as nat,
            max_docs: self.max_docs as nat,
            train_docs: self.train_docs as nat,
            seed: self.seed as nat,
            train: self.train,
            pretrain_steps: self.pretrain_steps as nat,
            train_steps: self.train_steps as nat,
            rates: crate::prepare::argument_texts(self.rates@),
        }
    }
}

impl Default for PlayArgs {
    fn default() -> (args: Self)
        ensures
            args@ == PlayChoices::unread(),
    {
        let args = PlayArgs {
            prompt: None,
            tokenizer: String::from_str("corpus/tokenizer.json"),
            corpus: String::from_str("corpus"),
            checkpoint: String::from_str("runs/play.ckpt"),
            seq_len: 128,
            steps: 16,
            max_docs: 2000,
            train_docs: 20_000,
            seed: 0xBA5E,
            train: false,
            pretrain_steps: 40_000,
            train_steps: 1_000,
            rates: Vec::new(),
        };
        proof {
            assert(crate::prepare::argument_texts(args.rates@) =~= Seq::empty());
        }
        args
    }
}

impl PlayArgs {
    /// Read `flag` with `value`, and say whether that is an option that takes a
    /// value.
    fn set(&mut self, flag: &str, value: &str) -> (known: bool)
        ensures
            known <==> old(self)@.with(flag@, value@) is Some,
            known ==> final(self)@ == old(self)@.with(flag@, value@)->0,
    {
        if same(flag, "--prompt") {
            self.prompt = Some(String::from_str(value));
            return true;
        }
        if same(flag, "--tokenizer") {
            self.tokenizer = String::from_str(value);
            return true;
        }
        if same(flag, "--corpus") {
            self.corpus = String::from_str(value);
            return true;
        }
        if same(flag, "--checkpoint") {
            self.checkpoint = String::from_str(value);
            return true;
        }
        let count: Option<u64> = parse_u64(value, usize::MAX as u64);
        if same(flag, "--seq-len") {
            if let Some(n) = count {
                self.seq_len = n as usize;
            }
            return count.is_some();
        }
        if same(flag, "--steps") {
            if let Some(n) = count {
                self.steps = n as usize;
            }
            return count.is_some();
        }
        if same(flag, "--max-docs") {
            if let Some(n) = count {
                self.max_docs = n as usize;
            }
            return count.is_some();
        }
        if same(flag, "--train-docs") {
            if let Some(n) = count {
                self.train_docs = n as usize;
            }
            return count.is_some();
        }
        if same(flag, "--pretrain-steps") {
            if let Some(n) = count {
                self.pretrain_steps = n as usize;
            }
            return count.is_some();
        }
        if same(flag, "--train-steps") {
            if let Some(n) = count {
                self.train_steps = n as usize;
            }
            return count.is_some();
        }
        if same(flag, "--lr") {
            let ghost before = self.rates@;
            self.rates.push(String::from_str(value));
            proof {
                assert(crate::prepare::argument_texts(self.rates@)
                    =~= crate::prepare::argument_texts(before).push(value@));
            }
            return true;
        }
        if same(flag, "--seed") {
            let seed: Option<u64> = parse_seed(value);
            if let Some(n) = seed {
                self.seed = n;
            }
            return seed.is_some();
        }
        false
    }

    /// What a command line asks for, its program name left out, or `None` where
    /// it cannot be understood.
    pub fn parse(argv: &[String]) -> (parsed: Option<PlayArgs>)
        ensures
            match PlayChoices::unread().after(crate::prepare::argument_texts(argv@)) {
                Some(choices) => parsed is Some && parsed->0@ == choices,
                None => parsed is None,
            },
    {
        let mut args: PlayArgs = PlayArgs::default();
        let ghost texts = crate::prepare::argument_texts(argv@);
        proof {
            assert(texts.skip(0) =~= texts);
        }
        let mut i: usize = 0;
        while i < argv.len()
            invariant
                i <= argv@.len(),
                texts == crate::prepare::argument_texts(argv@),
                args@.after(texts.skip(i as int)) == PlayChoices::unread().after(texts),
            decreases argv.len() - i,
        {
            proof {
                assert(texts.skip(i as int)[0] == argv@[i as int]@);
                assert(texts.skip(i as int).skip(1) =~= texts.skip(i + 1));
            }
            if same(argv[i].as_str(), "--train") {
                args.train = true;
                i = i + 1;
                continue;
            }
            if argv.len() - i == 1 {
                return None;
            }
            proof {
                assert(texts.skip(i as int)[1] == argv@[i + 1]@);
                assert(texts.skip(i as int).skip(2) =~= texts.skip(i + 2));
            }
            if !args.set(argv[i].as_str(), argv[i + 1].as_str()) {
                return None;
            }
            i = i + 2;
        }
        Some(args)
    }
}

/// No two options are spelled alike.
proof fn lemma_options_differ()
    ensures
        "--train"@ != "--prompt"@,
        "--train"@ != "--tokenizer"@,
        "--train"@ != "--corpus"@,
        "--train"@ != "--checkpoint"@,
        "--train"@ != "--seq-len"@,
        "--train"@ != "--steps"@,
        "--train"@ != "--max-docs"@,
        "--train"@ != "--train-docs"@,
        "--train"@ != "--pretrain-steps"@,
        "--train"@ != "--train-steps"@,
        "--train"@ != "--lr"@,
        "--train"@ != "--seed"@,
        "--prompt"@ != "--tokenizer"@,
        "--prompt"@ != "--corpus"@,
        "--prompt"@ != "--checkpoint"@,
        "--prompt"@ != "--seq-len"@,
        "--prompt"@ != "--steps"@,
        "--prompt"@ != "--max-docs"@,
        "--prompt"@ != "--train-docs"@,
        "--prompt"@ != "--pretrain-steps"@,
        "--prompt"@ != "--train-steps"@,
        "--prompt"@ != "--lr"@,
        "--prompt"@ != "--seed"@,
        "--tokenizer"@ != "--corpus"@,
        "--tokenizer"@ != "--checkpoint"@,
        "--tokenizer"@ != "--seq-len"@,
        "--tokenizer"@ != "--steps"@,
        "--tokenizer"@ != "--max-docs"@,
        "--tokenizer"@ != "--train-docs"@,
        "--tokenizer"@ != "--pretrain-steps"@,
        "--tokenizer"@ != "--train-steps"@,
        "--tokenizer"@ != "--lr"@,
        "--tokenizer"@ != "--seed"@,
        "--corpus"@ != "--checkpoint"@,
        "--corpus"@ != "--seq-len"@,
        "--corpus"@ != "--steps"@,
        "--corpus"@ != "--max-docs"@,
        "--corpus"@ != "--train-docs"@,
        "--corpus"@ != "--pretrain-steps"@,
        "--corpus"@ != "--train-steps"@,
        "--corpus"@ != "--lr"@,
        "--corpus"@ != "--seed"@,
        "--checkpoint"@ != "--seq-len"@,
        "--checkpoint"@ != "--steps"@,
        "--checkpoint"@ != "--max-docs"@,
        "--checkpoint"@ != "--train-docs"@,
        "--checkpoint"@ != "--pretrain-steps"@,
        "--checkpoint"@ != "--train-steps"@,
        "--checkpoint"@ != "--lr"@,
        "--checkpoint"@ != "--seed"@,
        "--seq-len"@ != "--steps"@,
        "--seq-len"@ != "--max-docs"@,
        "--seq-len"@ != "--train-docs"@,
        "--seq-len"@ != "--pretrain-steps"@,
        "--seq-len"@ != "--train-steps"@,
        "--seq-len"@ != "--lr"@,
        "--seq-len"@ != "--seed"@,
        "--steps"@ != "--max-docs"@,
        "--steps"@ != "--train-docs"@,
        "--steps"@ != "--pretrain-steps"@,
        "--steps"@ != "--train-steps"@,
        "--steps"@ != "--lr"@,
        "--steps"@ != "--seed"@,
        "--max-docs"@ != "--train-docs"@,
        "--max-docs"@ != "--pretrain-steps"@,
        "--max-docs"@ != "--train-steps"@,
        "--max-docs"@ != "--lr"@,
        "--max-docs"@ != "--seed"@,
        "--train-docs"@ != "--pretrain-steps"@,
        "--train-docs"@ != "--train-steps"@,
        "--train-docs"@ != "--lr"@,
        "--train-docs"@ != "--seed"@,
        "--pretrain-steps"@ != "--train-steps"@,
        "--pretrain-steps"@ != "--lr"@,
        "--pretrain-steps"@ != "--seed"@,
        "--train-steps"@ != "--lr"@,
        "--train-steps"@ != "--seed"@,
        "--lr"@ != "--seed"@,
{
    reveal_strlit("--train");
    reveal_strlit("--prompt");
    reveal_strlit("--tokenizer");
    reveal_strlit("--corpus");
    reveal_strlit("--checkpoint");
    reveal_strlit("--seq-len");
    reveal_strlit("--steps");
    reveal_strlit("--max-docs");
    reveal_strlit("--train-docs");
    reveal_strlit("--pretrain-steps");
    reveal_strlit("--train-steps");
    reveal_strlit("--lr");
    reveal_strlit("--seed");
    assert("--train"@.len() != "--prompt"@.len());
    assert("--train"@.len() != "--tokenizer"@.len());
    assert("--train"@.len() != "--corpus"@.len());
    assert("--train"@.len() != "--checkpoint"@.len());
    assert("--train"@.len() != "--seq-len"@.len());
    assert("--train"@[2] != "--steps"@[2]);
    assert("--train"@.len() != "--max-docs"@.len());
    assert("--train"@.len() != "--train-docs"@.len());
    assert("--train"@.len() != "--pretrain-steps"@.len());
    assert("--train"@.len() != "--train-steps"@.len());
    assert("--train"@.len() != "--lr"@.len());
    assert("--train"@.len() != "--seed"@.len());
    assert("--prompt"@.len() != "--tokenizer"@.len());
    assert("--prompt"@[2] != "--corpus"@[2]);
    assert("--prompt"@.len() != "--checkpoint"@.len());
    assert("--prompt"@.len() != "--seq-len"@.len());
    assert("--prompt"@.len() != "--steps"@.len());
    assert("--prompt"@.len() != "--max-docs"@.len());
    assert("--prompt"@.len() != "--train-docs"@.len());
    assert("--prompt"@.len() != "--pretrain-steps"@.len());
    assert("--prompt"@.len() != "--train-steps"@.len());
    assert("--prompt"@.len() != "--lr"@.len());
    assert("--prompt"@.len() != "--seed"@.len());
    assert("--tokenizer"@.len() != "--corpus"@.len());
    assert("--tokenizer"@.len() != "--checkpoint"@.len());
    assert("--tokenizer"@.len() != "--seq-len"@.len());
    assert("--tokenizer"@.len() != "--steps"@.len());
    assert("--tokenizer"@.len() != "--max-docs"@.len());
    assert("--tokenizer"@.len() != "--train-docs"@.len());
    assert("--tokenizer"@.len() != "--pretrain-steps"@.len());
    assert("--tokenizer"@.len() != "--train-steps"@.len());
    assert("--tokenizer"@.len() != "--lr"@.len());
    assert("--tokenizer"@.len() != "--seed"@.len());
    assert("--corpus"@.len() != "--checkpoint"@.len());
    assert("--corpus"@.len() != "--seq-len"@.len());
    assert("--corpus"@.len() != "--steps"@.len());
    assert("--corpus"@.len() != "--max-docs"@.len());
    assert("--corpus"@.len() != "--train-docs"@.len());
    assert("--corpus"@.len() != "--pretrain-steps"@.len());
    assert("--corpus"@.len() != "--train-steps"@.len());
    assert("--corpus"@.len() != "--lr"@.len());
    assert("--corpus"@.len() != "--seed"@.len());
    assert("--checkpoint"@.len() != "--seq-len"@.len());
    assert("--checkpoint"@.len() != "--steps"@.len());
    assert("--checkpoint"@.len() != "--max-docs"@.len());
    assert("--checkpoint"@[2] != "--train-docs"@[2]);
    assert("--checkpoint"@.len() != "--pretrain-steps"@.len());
    assert("--checkpoint"@.len() != "--train-steps"@.len());
    assert("--checkpoint"@.len() != "--lr"@.len());
    assert("--checkpoint"@.len() != "--seed"@.len());
    assert("--seq-len"@.len() != "--steps"@.len());
    assert("--seq-len"@.len() != "--max-docs"@.len());
    assert("--seq-len"@.len() != "--train-docs"@.len());
    assert("--seq-len"@.len() != "--pretrain-steps"@.len());
    assert("--seq-len"@.len() != "--train-steps"@.len());
    assert("--seq-len"@.len() != "--lr"@.len());
    assert("--seq-len"@.len() != "--seed"@.len());
    assert("--steps"@.len() != "--max-docs"@.len());
    assert("--steps"@.len() != "--train-docs"@.len());
    assert("--steps"@.len() != "--pretrain-steps"@.len());
    assert("--steps"@.len() != "--train-steps"@.len());
    assert("--steps"@.len() != "--lr"@.len());
    assert("--steps"@.len() != "--seed"@.len());
    assert("--max-docs"@.len() != "--train-docs"@.len());
    assert("--max-docs"@.len() != "--pretrain-steps"@.len());
    assert("--max-docs"@.len() != "--train-steps"@.len());
    assert("--max-docs"@.len() != "--lr"@.len());
    assert("--max-docs"@.len() != "--seed"@.len());
    assert("--train-docs"@.len() != "--pretrain-steps"@.len());
    assert("--train-docs"@.len() != "--train-steps"@.len());
    assert("--train-docs"@.len() != "--lr"@.len());
    assert("--train-docs"@.len() != "--seed"@.len());
    assert("--pretrain-steps"@.len() != "--train-steps"@.len());
    assert("--pretrain-steps"@.len() != "--lr"@.len());
    assert("--pretrain-steps"@.len() != "--seed"@.len());
    assert("--train-steps"@.len() != "--lr"@.len());
    assert("--train-steps"@.len() != "--seed"@.len());
    assert("--lr"@.len() != "--seed"@.len());
}

/// An option sets what it names and nothing else, and is refused where its value
/// is not the number it asks for; `--train` takes no value.
pub proof fn law_an_option_sets_what_it_names(choices: PlayChoices, value: Seq<char>)
    ensures
        choices.with("--prompt"@, value) == Some(PlayChoices { prompt: Some(value), ..choices }),
        choices.with("--tokenizer"@, value) == Some(PlayChoices { tokenizer: value, ..choices }),
        choices.with("--corpus"@, value) == Some(PlayChoices { corpus: value, ..choices }),
        choices.with("--checkpoint"@, value) == Some(PlayChoices { checkpoint: value, ..choices }),
        choices.with("--lr"@, value) == Some(PlayChoices { rates: choices.rates.push(value), ..choices }),
        choices.with("--seq-len"@, value) == match crate::number::number_in(
            vstd::utf8::encode_utf8(value),
            10,
            usize::MAX as nat,
        ) {
            Some(n) => Some(PlayChoices { seq_len: n, ..choices }),
            None => None,
        },
        choices.with("--steps"@, value) == match crate::number::number_in(
            vstd::utf8::encode_utf8(value),
            10,
            usize::MAX as nat,
        ) {
            Some(n) => Some(PlayChoices { steps: n, ..choices }),
            None => None,
        },
        choices.with("--max-docs"@, value) == match crate::number::number_in(
            vstd::utf8::encode_utf8(value),
            10,
            usize::MAX as nat,
        ) {
            Some(n) => Some(PlayChoices { max_docs: n, ..choices }),
            None => None,
        },
        choices.with("--train-docs"@, value) == match crate::number::number_in(
            vstd::utf8::encode_utf8(value),
            10,
            usize::MAX as nat,
        ) {
            Some(n) => Some(PlayChoices { train_docs: n, ..choices }),
            None => None,
        },
        choices.with("--pretrain-steps"@, value) == match crate::number::number_in(
            vstd::utf8::encode_utf8(value),
            10,
            usize::MAX as nat,
        ) {
            Some(n) => Some(PlayChoices { pretrain_steps: n, ..choices }),
            None => None,
        },
        choices.with("--train-steps"@, value) == match crate::number::number_in(
            vstd::utf8::encode_utf8(value),
            10,
            usize::MAX as nat,
        ) {
            Some(n) => Some(PlayChoices { train_steps: n, ..choices }),
            None => None,
        },
        choices.with("--seed"@, value) == match seed_in(vstd::utf8::encode_utf8(value)) {
            Some(n) => Some(PlayChoices { seed: n, ..choices }),
            None => None,
        },
        choices.with("--train"@, value) is None,
{
    lemma_options_differ();
}

/// Options are read from the left: an option with its value first, and then the
/// rest; `--train` alone, and then the rest; and an option at the very end without
/// its value is refused.
pub proof fn law_options_are_read_from_the_left(
    choices: PlayChoices,
    flag: Seq<char>,
    value: Seq<char>,
    rest: Seq<Seq<char>>,
)
    ensures
        choices.after(Seq::empty()) == Some(choices),
        choices.after(seq!["--train"@] + rest) == (PlayChoices { train: true, ..choices }).after(
            rest,
        ),
        flag != "--train"@ ==> choices.after(seq![flag]) is None,
        flag != "--train"@ ==> choices.after(seq![flag, value] + rest) == match choices.with(
            flag,
            value,
        ) {
            Some(next) => next.after(rest),
            None => None,
        },
{
    assert((seq!["--train"@] + rest).skip(1) =~= rest);
    assert((seq![flag, value] + rest).skip(2) =~= rest);
}

/// A seed behind `0x` is hexadecimal; one in plain decimal is read back.
pub proof fn law_a_seed_is_hexadecimal_behind_its_sign(digits: Seq<u8>, n: nat)
    ensures
        seed_in(seq![0x30u8, 0x78u8] + digits) == crate::number::number_in(
            digits,
            16,
            u64::MAX as nat,
        ),
        seed_in(seq![0x30u8, 0x58u8] + digits) == crate::number::number_in(
            digits,
            16,
            u64::MAX as nat,
        ),
        n <= u64::MAX ==> seed_in(crate::number::plain_bytes(crate::text::decimal_chars(n))) == Some(
            n,
        ),
{
    assert((seq![0x30u8, 0x78u8] + digits).skip(2) =~= digits);
    assert((seq![0x30u8, 0x58u8] + digits).skip(2) =~= digits);
    crate::number::law_a_written_number_is_read_back(n, u64::MAX as nat);
    crate::number::lemma_all_digits(n);
}

} // verus!
