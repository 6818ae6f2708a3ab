//! The commands of the interactive shell: what each does to the tree and
//! what it says.

use vstd::prelude::*;
use vstd::string::{StringExecFns, StringSliceAdditionalSpecFns};
use crate::engine::lsm::{stats_text, LSMConfig, LSMTree};
use crate::engine::naming::{
    append_decimal, digits_end, digits_value, is_digit, lemma_digits_value_grows,
};
use crate::engine::naming::decimal;
use crate::etl::loader::ETLLoader;
use crate::keys::{compare_keys, KeyOrder};
use crate::text::{lower_of, split_words, texts, to_lower, words_of};
use crate::types::{DbError, DbResult};

verus! {

/// A request to load a file of delimited text, which the shell leaves to
/// whoever reads files for it.
#[derive(Debug, PartialEq)]
pub struct LoadRequest {
    pub file_path: String,
    pub key_column: usize,
    pub value_column: usize,
}

/// The shell: a tree, the lines that the commands have said, and the load
/// that a command has asked for.
pub struct DatabaseCLI {
    db: LSMTree,
    output: Vec<String>,
    pending_load: Option<LoadRequest>,
}

/// The number that decimal digits spell: an optional `+` and at least one
/// digit; `None` for anything else, and for a number that fits no `usize`.
pub open spec fn count_of(bytes: Seq<u8>) -> Option<usize> {
    let from: int = if bytes.len() > 0 && bytes[0] == 43 {
        1
    } else {
        0
    };
    let digits = bytes.skip(from);
    if digits.len() > 0 && digits_end(digits, 0) == digits.len()
        && digits_value(digits) <= usize::MAX {
        Some(digits_value(digits) as usize)
    } else {
        None
    }
}

/// Reads a count.
pub fn parse_count(text: &str) -> (r: Option<usize>)
    ensures
        r == count_of(text.spec_bytes()),
{
    let b = text.as_bytes();
    let n: usize = b.len();
    let from: usize = if n > 0 && b[0] == 43 {
        1
    } else {
        0
    };
    let ghost digits = b@.skip(from as int);
    let mut value: usize = 0;
    let mut i: usize = from;
    proof {
        assert(digits.take(0) =~= Seq::<u8>::empty());
    }
    while i < n
        invariant
            from <= i <= n,
            n == b@.len(),
            b@ == text.spec_bytes(),
            from == (if b@.len() > 0 && b@[0] == 43 {
                1int
            } else {
                0int
            }),
            digits == b@.skip(from as int),
            digits_end(digits, 0) == digits_end(digits, i - from),
            value == digits_value(digits.take(i - from)),
        decreases n - i,
    {
        let c = b[i];
        proof {
            assert(digits[i - from] == c);
            assert(digits.take(i - from + 1).drop_last() =~= digits.take(i - from));
            assert(digits.take(i - from + 1).last() == c);
        }
        if !(48 <= c && c <= 57) {
            return None;
        }
        let d: usize = (c - 48) as usize;
        if value > (usize::MAX - d) / 10 {
            proof {
                if digits_end(digits, 0) == digits.len() {
                    lemma_all_digits(digits, 0);
                    lemma_digits_value_grows(digits, i - from + 1);
                }
            }
            return None;
        }
        value = value * 10 + d;
        i += 1;
    }
    proof {
        assert(digits.take(i - from) =~= digits);
    }
    if i == from {
        None
    } else {
        Some(value)
    }
}

/// Where the digits run to the end, every byte from `from` on is a digit.
pub proof fn lemma_all_digits(s: Seq<u8>, from: int)
    requires
        0 <= from <= s.len(),
        digits_end(s, from) == s.len(),
    ensures
        forall|i: int| from <= i < s.len() ==> is_digit(#[trigger] s[i]),
    decreases s.len() - from,
{
    if from < s.len() {
        if is_digit(s[from]) {
            lemma_all_digits(s, from + 1);
        } else {
            assert(digits_end(s, from) == from);
        }
    }
}

/// The lines of the help text.
pub open spec fn help_text() -> Seq<Seq<char>> {
    seq![
        "Available commands:"@,
        "  insert <key> <value>                    - Insert a key-value pair"@,
        "  get <key>                               - Get value by key"@,
        "  delete <key>                            - Delete a key"@,
        "  load <csv_file> [key_col] [value_col]   - Load data from CSV file with specified columns (default: 0,1)"@,
        "  compact                                 - Force compaction of all levels"@,
        "  autocompact                             - Check and compact levels if needed"@,
        "  stats                                   - Show database statistics"@,
        "  flush                                   - Force flush to disk"@,
        "  help                                    - Show this help"@,
        "  quit                                    - Exit the CLI"@,
    ]
}

/// The lines of the help text.
pub fn help_lines() -> (r: Vec<String>)
    ensures
        texts(r@) == help_text(),
{
    let mut lines: Vec<String> = Vec::new();
    lines.push(String::from_str("Available commands:"));
    lines.push(String::from_str("  insert <key> <value>                    - Insert a key-value pair"));
    lines.push(String::from_str("  get <key>                               - Get value by key"));
    lines.push(String::from_str("  delete <key>                            - Delete a key"));
    lines.push(
        String::from_str(
            "  load <csv_file> [key_col] [value_col]   - Load data from CSV file with specified columns (default: 0,1)",
        ),
    );
    lines.push(
        String::from_str("  compact                                 - Force compaction of all levels"),
    );
    lines.push(
        String::from_str(
            "  autocompact                             - Check and compact levels if needed",
        ),
    );
    lines.push(String::from_str("  stats                                   - Show database statistics"));
    lines.push(String::from_str("  flush                                   - Force flush to disk"));
    lines.push(String::from_str("  help                                    - Show this help"));
    lines.push(String::from_str("  quit                                    - Exit the CLI"));
    proof {
        assert(texts(lines@) =~= help_text());
    }
    lines
}

/// The commands of the shell.
#[derive(Debug, Clone, Copy, PartialEq, Eq, Structural)]
pub enum Verb {
    Insert,
    Get,
    Delete,
    Stats,
    Flush,
    Compact,
    AutoCompact,
    Load,
    Help,
    Quit,
    Unknown,
}

/// The command that a word in lower case names.
pub open spec fn named_verb(w: Seq<char>) -> Verb {
    if w == "insert"@ || w == "put"@ {
        Verb::Insert
    } else if w == "get"@ {
        Verb::Get
    } else if w == "delete"@ || w == "del"@ {
        Verb::Delete
    } else if w == "stats"@ {
        Verb::Stats
    } else if w == "flush"@ {
        Verb::Flush
    } else if w == "compact"@ {
        Verb::Compact
    } else if w == "autocompact"@ {
        Verb::AutoCompact
    } else if w == "load"@ {
        Verb::Load
    } else if w == "help"@ {
        Verb::Help
    } else if w == "quit"@ || w == "exit"@ {
        Verb::Quit
    } else {
        Verb::Unknown
    }
}

/// The command that a word names, whatever the case of its letters.
pub open spec fn verb_of(word: Seq<char>) -> Verb {
    named_verb(lower_of(word))
}

/// The command that a word in lower case names.
pub fn verb_named(word: &str) -> (r: Verb)
    ensures
        r == named_verb(word@),
{
    if compare_keys(word, "insert") == KeyOrder::Equal || compare_keys(word, "put")
        == KeyOrder::Equal {
        Verb::Insert
    } else if compare_keys(word, "get") == KeyOrder::Equal {
        Verb::Get
    } else if compare_keys(word, "delete") == KeyOrder::Equal || compare_keys(word, "del")
        == KeyOrder::Equal {
        Verb::Delete
    } else if compare_keys(word, "stats") == KeyOrder::Equal {
        Verb::Stats
    } else if compare_keys(word, "flush") == KeyOrder::Equal {
        Verb::Flush
    } else if compare_keys(word, "compact") == KeyOrder::Equal {
        Verb::Compact
    } else if compare_keys(word, "autocompact") == KeyOrder::Equal {
        Verb::AutoCompact
    } else if compare_keys(word, "load") == KeyOrder::Equal {
        Verb::Load
    } else if compare_keys(word, "help") == KeyOrder::Equal {
        Verb::Help
    } else if compare_keys(word, "quit") == KeyOrder::Equal || compare_keys(word, "exit")
        == KeyOrder::Equal {
        Verb::Quit
    } else {
        Verb::Unknown
    }
}

/// The column that the word at `at` names; `default` where there is no
/// such word or it names no column.
pub open spec fn column_at(words: Seq<Seq<char>>, at: int, default: usize) -> usize {
    if at < words.len() {
        match count_of(vstd::utf8::encode_utf8(words[at])) {
            Some(n) => n,
            None => default,
        }
    } else {
        default
    }
}

impl DatabaseCLI {
    /// The tree of the shell.
    pub closed spec fn tree(&self) -> LSMTree {
        self.db
    }

    /// The lines that the commands have said and nobody has taken.
    pub closed spec fn said(&self) -> Seq<Seq<char>> {
        texts(self.output@)
    }

    /// The number of lines that the commands have said and nobody has taken.
    pub open spec fn lines(&self) -> nat {
        self.said().len()
    }

    /// The load that a command has asked for and nobody has taken.
    pub closed spec fn asked_load(&self) -> Option<LoadRequest> {
        self.pending_load
    }

    /// A shell over a fresh tree that flushes at 100 keys.
    pub fn new() -> (r: DbResult<Self>)
        ensures
            match r {
                Ok(cli) => {
                    &&& cli.tree().wf()
                    &&& cli.tree().in_order()
                    &&& cli.tree().flush_limit() == 100
                    &&& cli.tree().memtable_model() == Map::<Seq<char>, Option<Seq<char>>>::empty()
                    &&& cli.tree().entries() == 0
                    &&& cli.tree().levels().len() == 0
                    &&& cli.tree().log() == Some(Seq::<u8>::empty())
                    &&& cli.lines() == 0
                    &&& cli.asked_load() is None
                },
                Err(_) => false,
            },
    {
        let defaults = LSMConfig::default();
        let config = LSMConfig {
            memtable_size_limit: 100,
            data_dir: String::from_str("cli_data"),
            background_compaction: defaults.background_compaction,
            background_compaction_interval: defaults.background_compaction_interval,
            enable_wal: defaults.enable_wal,
            l0_file_limit: defaults.l0_file_limit,
            level_size_multiplier: defaults.level_size_multiplier,
            max_sst_bytes: defaults.max_sst_bytes,
        };
        Ok(Self::with_tree(LSMTree::empty(config)))
    }

    /// A shell over a tree.
    pub fn with_tree(db: LSMTree) -> (r: Self)
        ensures
            r.tree() == db,
            r.lines() == 0,
            r.asked_load() is None,
    {
        Self { db, output: Vec::new(), pending_load: None }
    }

    /// The tree, to read.
    pub fn db(&self) -> (r: &LSMTree)
        ensures
            *r == self.tree(),
    {
        &self.db
    }

    /// The tree, to work on.
    pub fn db_mut(&mut self) -> (r: &mut LSMTree)
        ensures
            *r == old(self).tree(),
            final(self).tree() == *final(r),
            final(self).lines() == old(self).lines(),
            final(self).asked_load() == old(self).asked_load(),
    {
        &mut self.db
    }

    /// Takes the lines that the commands have said.
    pub fn take_output(&mut self) -> (r: Vec<String>)
        ensures
            texts(r@) == old(self).said(),
            final(self).lines() == 0,
            final(self).tree() == old(self).tree(),
            final(self).asked_load() == old(self).asked_load(),
    {
        let mut lines: Vec<String> = Vec::new();
        std::mem::swap(&mut lines, &mut self.output);
        lines
    }

    /// Takes the load that a command has asked for.
    pub fn take_load_request(&mut self) -> (r: Option<LoadRequest>)
        ensures
            r == old(self).asked_load(),
            final(self).asked_load() is None,
            final(self).tree() == old(self).tree(),
            final(self).lines() == old(self).lines(),
    {
        let mut request: Option<LoadRequest> = None;
        std::mem::swap(&mut request, &mut self.pending_load);
        request
    }

    /// The line that a load says: the number of keys written and the
    /// file, or what went wrong.
    pub open spec fn load_line(r: DbResult<usize>, file_path: Seq<char>) -> Seq<char> {
        match r {
            Ok(count) => "Successfully loaded "@ + decimal(count as nat) + " records from "@
                + file_path,
            Err(e) => "Error loading CSV: "@ + (e.spec_prefix() + e.spec_message()),
        }
    }

    /// Loads delimited text for a load that a command asked for, and says
    /// how it went: the text is loaded as a loader with batches of 1000
    /// rows loads it.
    pub fn load(&mut self, request: &LoadRequest, data: &[u8])
        requires
            old(self).tree().wf(),
        ensures
            final(self).tree().wf(),
            final(self).asked_load() == old(self).asked_load(),
            LSMTree::keeps_order(&old(self).tree(), &final(self).tree()),
            exists|loader: ETLLoader, r: DbResult<usize>|
                {
                    &&& loader.spec_batch_size() == 1000
                    &&& #[trigger] ETLLoader::loads(
                        &loader,
                        &old(self).tree(),
                        &final(self).tree(),
                        data@,
                        request.key_column,
                        request.value_column,
                        true,
                        r,
                    )
                    &&& final(self).said() == old(self).said().push(
                        Self::load_line(r, request.file_path@),
                    )
                },
    {
        let loader = ETLLoader::new();
        let mut line: String;
        let ghost before = self.output@;
        let r = loader.load_csv(data, &mut self.db, request.key_column, request.value_column);
        match &r {
            Ok(count) => {
                line = String::from_str("Successfully loaded ");
                append_decimal(&mut line, *count as u64);
                line.append(" records from ");
                line.append(request.file_path.as_str());
            },
            Err(e) => {
                line = String::from_str("Error loading CSV: ");
                line.append(e.to_string().as_str());
            },
        }
        self.output.push(line);
        proof {
            assert(texts(self.output@) =~= texts(before).push(line@));
            assert(ETLLoader::loads(
                &loader,
                &old(self).tree(),
                &self.tree(),
                data@,
                request.key_column,
                request.value_column,
                true,
                r,
            ));
        }
    }

    fn say(&mut self, words: &str, more: &str)
        ensures
            final(self).tree() == old(self).tree(),
            final(self).said() == old(self).said().push(words@ + more@),
            final(self).asked_load() == old(self).asked_load(),
    {
        let mut line = String::from_str(words);
        line.append(more);
        let ghost before = self.output@;
        self.output.push(line);
        proof {
            assert(texts(self.output@) =~= texts(before).push(line@));
        }
    }

    fn say_stats(&mut self, words: &str)
        requires
            old(self).tree().wf(),
        ensures
            final(self).tree() == old(self).tree(),
            final(self).said() == old(self).said().push(
                words@ + stats_text(old(self).tree().figures()),
            ),
            final(self).asked_load() == old(self).asked_load(),
    {
        let stats = self.db.stats();
        self.say(words, stats.to_string().as_str());
    }

    /// What a command does to the tree: `insert` with a key and a value
    /// writes the value; `delete` with a key deletes it; `flush` flushes;
    /// `compact` and `autocompact` leave every key reading as before;
    /// anything else leaves the tree as it is.
    pub open spec fn does(pre: &LSMTree, post: &LSMTree, verb: Verb, words: Seq<Seq<char>>) -> bool {
        match verb {
            Verb::Insert => if words.len() == 3 && LSMTree::accepts(words[1], Some(words[2])) {
                LSMTree::written(pre, post, words[1], Some(words[2]))
            } else {
                LSMTree::same(pre, post)
            },
            Verb::Delete => if words.len() == 2 && LSMTree::accepts(words[1], None) {
                LSMTree::written(pre, post, words[1], None)
            } else {
                LSMTree::same(pre, post)
            },
            Verb::Flush => LSMTree::flush_effect(pre, post),
            Verb::Compact | Verb::AutoCompact => LSMTree::reads_alike(pre, post)
                && LSMTree::keeps_order(pre, post),
            _ => LSMTree::same(pre, post),
        }
    }

    /// Whether the command is a write that the tree refuses.
    pub open spec fn refuses(verb: Verb, words: Seq<Seq<char>>) -> bool {
        match verb {
            Verb::Insert => words.len() == 3 && !LSMTree::accepts(words[1], Some(words[2])),
            Verb::Delete => words.len() == 2 && !LSMTree::accepts(words[1], None),
            _ => false,
        }
    }

    /// The lines that a command says, given the tree before it and after it.
    pub open spec fn says(pre: &LSMTree, post: &LSMTree, verb: Verb, words: Seq<Seq<char>>) -> Seq<
        Seq<char>,
    > {
        match verb {
            Verb::Insert => if words.len() != 3 {
                seq!["Usage: insert <key> <value>"@]
            } else {
                seq!["Inserted: "@ + words[1] + " -> "@ + words[2]]
            },
            Verb::Get => if words.len() != 2 {
                seq!["Usage: get <key>"@]
            } else {
                match pre.logical(words[1]) {
                    Some(value) => seq![words[1] + ": "@ + value],
                    None => seq!["Key not found: "@ + words[1]],
                }
            },
            Verb::Delete => if words.len() != 2 {
                seq!["Usage: delete <key"@]
            } else {
                seq!["Deleted: "@ + words[1]]
            },
            Verb::Stats => seq![stats_text(pre.figures())],
            Verb::Flush => seq!["Database flushed to disk"@],
            Verb::Compact => seq!["After compaction: "@ + stats_text(post.figures())],
            Verb::AutoCompact => seq!["After auto-compaction: "@ + stats_text(post.figures())],
            Verb::Load => if words.len() < 2 {
                seq!["Usage: load <csv_file> [key_column] [value_column]"@]
            } else {
                Seq::empty()
            },
            Verb::Help => help_text(),
            Verb::Quit => Seq::empty(),
            Verb::Unknown => seq![
                "Unknown command: "@ + words[0] + ". Type 'help' for available commands."@,
            ],
        }
    }

    /// The load that a command asks for: the file and the two columns,
    /// which are 0 and 1 where the command names none.
    pub open spec fn asks(verb: Verb, words: Seq<Seq<char>>) -> Option<(Seq<char>, usize, usize)> {
        if verb == Verb::Load && words.len() >= 2 {
            Some((words[1], column_at(words, 2, 0), column_at(words, 3, 1)))
        } else {
            None
        }
    }

    /// Whether the shell has taken note of the load that the command asks for.
    pub open spec fn noted(
        before: Option<LoadRequest>,
        after: Option<LoadRequest>,
        asked: Option<(Seq<char>, usize, usize)>,
    ) -> bool {
        match asked {
            Some((path, key_column, value_column)) => match after {
                Some(request) => request.file_path@ == path && request.key_column == key_column
                    && request.value_column == value_column,
                None => false,
            },
            None => after == before,
        }
    }

    /// Runs one command, given by its kind and its words. Returns whether
    /// the shell is to end.
    pub fn run_verb(&mut self, verb: Verb, parts: &Vec<String>) -> (r: DbResult<bool>)
        requires
            old(self).tree().wf(),
            parts@.len() > 0,
        ensures
            final(self).tree().wf(),
            Self::does(&old(self).tree(), &final(self).tree(), verb, texts(parts@)),
            Self::noted(
                old(self).asked_load(),
                final(self).asked_load(),
                Self::asks(verb, texts(parts@)),
            ),
            match r {
                Ok(end) => end == (verb == Verb::Quit) && !Self::refuses(verb, texts(parts@))
                    && final(self).said() == old(self).said() + Self::says(
                    &old(self).tree(),
                    &final(self).tree(),
                    verb,
                    texts(parts@),
                ),
                Err(DbError::InvalidArgument(_)) => Self::refuses(verb, texts(parts@))
                    && final(self).said() == old(self).said(),
                Err(_) => false,
            },
    {
        let ghost words = texts(parts@);
        let ghost start = self.said();
        match verb {
            Verb::Insert => {
                if parts.len() != 3 {
                    self.say("Usage: insert <key> <value>", "");
                    proof {
                        reveal_strlit("");
                        assert("Usage: insert <key> <value>"@ + ""@ =~= "Usage: insert <key> <value>"@);
                        assert(self.said() =~= start + Self::says(
                            &old(self).tree(),
                            &self.tree(),
                            verb,
                            words,
                        ));
                    }
                    return Ok(false);
                }
                match self.db.insert(parts[1].clone(), parts[2].clone()) {
                    Ok(_) => {},
                    Err(e) => {
                        return Err(e);
                    },
                }
                let mut line = String::from_str("Inserted: ");
                line.append(parts[1].as_str());
                line.append(" -> ");
                self.say(line.as_str(), parts[2].as_str());
                proof {
                    assert(self.said() =~= start + Self::says(
                        &old(self).tree(),
                        &self.tree(),
                        verb,
                        words,
                    ));
                }
            },
            Verb::Get => {
                if parts.len() != 2 {
                    self.say("Usage: get <key>", "");
                    proof {
                        reveal_strlit("");
                        assert("Usage: get <key>"@ + ""@ =~= "Usage: get <key>"@);
                        assert(self.said() =~= start + Self::says(
                            &old(self).tree(),
                            &self.tree(),
                            verb,
                            words,
                        ));
                    }
                    return Ok(false);
                }
                match self.db.get(parts[1].as_str()) {
                    Ok(Some(value)) => {
                        let mut line = parts[1].clone();
                        line.append(": ");
                        self.say(line.as_str(), value.as_str());
                    },
                    _ => {
                        self.say("Key not found: ", parts[1].as_str());
                    },
                }
                proof {
                    assert(self.said() =~= start + Self::says(
                        &old(self).tree(),
                        &self.tree(),
                        verb,
                        words,
                    ));
                }
            },
            Verb::Delete => {
                if parts.len() != 2 {
                    self.say("Usage: delete <key", "");
                    proof {
                        reveal_strlit("");
                        assert("Usage: delete <key"@ + ""@ =~= "Usage: delete <key"@);
                        assert(self.said() =~= start + Self::says(
                            &old(self).tree(),
                            &self.tree(),
                            verb,
                            words,
                        ));
                    }
                    return Ok(false);
                }
                match self.db.delete(parts[1].as_str()) {
                    Ok(_) => {
                        self.say("Deleted: ", parts[1].as_str());
                    },
                    Err(e) => {
                        return Err(e);
                    },
                }
                proof {
                    assert(self.said() =~= start + Self::says(
                        &old(self).tree(),
                        &self.tree(),
                        verb,
                        words,
                    ));
                }
            },
            Verb::Stats => {
                self.say_stats("");
                proof {
                    reveal_strlit("");
                    assert(""@ + stats_text(old(self).tree().figures()) =~= stats_text(
                        old(self).tree().figures(),
                    ));
                    assert(self.said() =~= start + Self::says(
                        &old(self).tree(),
                        &self.tree(),
                        verb,
                        words,
                    ));
                }
            },
            Verb::Flush => {
                let _ = self.db.flush();
                self.say("Database flushed to disk", "");
                proof {
                    reveal_strlit("");
                    assert("Database flushed to disk"@ + ""@ =~= "Database flushed to disk"@);
                    assert(self.said() =~= start + Self::says(
                        &old(self).tree(),
                        &self.tree(),
                        verb,
                        words,
                    ));
                }
            },
            Verb::Compact => {
                let _ = self.db.compact();
                self.say_stats("After compaction: ");
                proof {
                    assert(self.said() =~= start + Self::says(
                        &old(self).tree(),
                        &self.tree(),
                        verb,
                        words,
                    ));
                }
            },
            Verb::AutoCompact => {
                let _ = self.db.maybe_compact();
                self.say_stats("After auto-compaction: ");
                proof {
                    assert(self.said() =~= start + Self::says(
                        &old(self).tree(),
                        &self.tree(),
                        verb,
                        words,
                    ));
                }
            },
            Verb::Load => {
                if parts.len() < 2 {
                    self.say("Usage: load <csv_file> [key_column] [value_column]", "");
                    proof {
                        reveal_strlit("");
                        assert("Usage: load <csv_file> [key_column] [value_column]"@ + ""@
                            =~= "Usage: load <csv_file> [key_column] [value_column]"@);
                        assert(self.said() =~= start + Self::says(
                            &old(self).tree(),
                            &self.tree(),
                            verb,
                            words,
                        ));
                    }
                    return Ok(false);
                }
                let key_column: usize = if parts.len() > 2 {
                    match parse_count(parts[2].as_str()) {
                        Some(n) => n,
                        None => 0,
                    }
                } else {
                    0
                };
                let value_column: usize = if parts.len() > 3 {
                    match parse_count(parts[3].as_str()) {
                        Some(n) => n,
                        None => 1,
                    }
                } else {
                    1
                };
                self.pending_load = Some(
                    LoadRequest { file_path: parts[1].clone(), key_column, value_column },
                );
                proof {
                    assert(self.said() =~= start + Self::says(
                        &old(self).tree(),
                        &self.tree(),
                        verb,
                        words,
                    ));
                }
            },
            Verb::Help => {
                let mut lines = help_lines();
                let ghost before = self.output@;
                let ghost added = lines@;
                self.output.append(&mut lines);
                proof {
                    assert(texts(self.output@) =~= texts(before) + texts(added));
                }
            },
            Verb::Quit => {
                proof {
                    assert(self.said() =~= start + Self::says(
                        &old(self).tree(),
                        &self.tree(),
                        verb,
                        words,
                    ));
                }
                return Ok(true);
            },
            Verb::Unknown => {
                let mut line = String::from_str("Unknown command: ");
                line.append(parts[0].as_str());
                self.say(line.as_str(), ". Type 'help' for available commands.");
                proof {
                    assert(self.said() =~= start + Self::says(
                        &old(self).tree(),
                        &self.tree(),
                        verb,
                        words,
                    ));
                }
            },
        }
        Ok(false)
    }

    /// What a command line does to the tree: what its first word, as a
    /// command, does with its words; nothing where it has no word.
    pub open spec fn effect(pre: &LSMTree, post: &LSMTree, words: Seq<Seq<char>>) -> bool {
        if words.len() == 0 {
            LSMTree::same(pre, post)
        } else {
            Self::does(pre, post, verb_of(words[0]), words)
        }
    }

    /// Whether the words are a write that the tree refuses.
    pub open spec fn refused(words: Seq<Seq<char>>) -> bool {
        words.len() > 0 && Self::refuses(verb_of(words[0]), words)
    }

    /// Whether the words end the shell: `quit` or `exit`.
    pub open spec fn quits(words: Seq<Seq<char>>) -> bool {
        words.len() > 0 && verb_of(words[0]) == Verb::Quit
    }

    /// The lines that a command line says.
    pub open spec fn answer(pre: &LSMTree, post: &LSMTree, words: Seq<Seq<char>>) -> Seq<Seq<char>> {
        if words.len() == 0 {
            Seq::empty()
        } else {
            Self::says(pre, post, verb_of(words[0]), words)
        }
    }

    /// Runs one command line: its words are taken apart, the first names
    /// the command, whatever the case of its letters. Returns whether the
    /// shell is to end.
    pub fn handle_command(&mut self, command: &str) -> (r: DbResult<bool>)
        requires
            old(self).tree().wf(),
        ensures
            final(self).tree().wf(),
            Self::effect(&old(self).tree(), &final(self).tree(), words_of(command@)),
            words_of(command@).len() == 0 ==> final(self).asked_load() == old(self).asked_load(),
            words_of(command@).len() > 0 ==> Self::noted(
                old(self).asked_load(),
                final(self).asked_load(),
                Self::asks(verb_of(words_of(command@)[0]), words_of(command@)),
            ),
            match r {
                Ok(end) => end == Self::quits(words_of(command@)) && !Self::refused(
                    words_of(command@),
                ) && final(self).said() == old(self).said() + Self::answer(
                    &old(self).tree(),
                    &final(self).tree(),
                    words_of(command@),
                ),
                Err(DbError::InvalidArgument(_)) => Self::refused(words_of(command@))
                    && final(self).said() == old(self).said(),
                Err(_) => false,
            },
    {
        let parts = split_words(command);
        if parts.len() == 0 {
            proof {
                assert(self.said() + Seq::<Seq<char>>::empty() =~= self.said());
            }
            return Ok(false);
        }
        let lowered = to_lower(parts[0].as_str());
        let verb = verb_named(lowered.as_str());
        self.run_verb(verb, &parts)
    }

    /// The lines of the help text.
    pub fn print_help(&self) -> (r: Vec<String>)
        ensures
            texts(r@) == help_text(),
    {
        help_lines()
    }
}

} // verus!
