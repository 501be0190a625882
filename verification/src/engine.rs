use vstd::prelude::*;

verus! {

use crate::synth_tree::{
    best_finite,
    derived_edges,
    frontier,
    node_score_consistent,
    scores_consistent,
    trace_wf,
    SynthResult,
    Synthesis,
};
use crate::BaseT;

/// First position of `s` among `names`, or -1 when it does not occur.
pub open spec fn spec_find_name(names: Seq<Seq<char>>, s: Seq<char>) -> int
    decreases names.len(),
{
    if names.len() == 0 {
        -1
    } else if names[0] == s {
        0
    } else {
        let r = spec_find_name(names.drop_first(), s);
        if r < 0 {
            -1
        } else {
            r + 1
        }
    }
}

/// `spec_find_name` returns -1 exactly when the name is absent, and the
/// first position of the name otherwise.
pub proof fn lemma_find_name_props(names: Seq<Seq<char>>, s: Seq<char>)
    ensures
        spec_find_name(names, s) == -1 ==> (forall|k: int|
            0 <= k < names.len() ==> names[k] != s),
        spec_find_name(names, s) >= 0 ==> {
            let r = spec_find_name(names, s);
            &&& r < names.len()
            &&& names[r] == s
            &&& forall|k: int| 0 <= k < r ==> names[k] != s
        },
    decreases names.len(),
{
    if names.len() > 0 && names[0] != s {
        let rest = names.drop_first();
        lemma_find_name_props(rest, s);
        let r0 = spec_find_name(rest, s);
        if r0 == -1 {
            assert forall|k: int| 0 <= k < names.len() implies names[k] != s by {
                if k > 0 {
                    assert(rest[k - 1] == names[k]);
                }
            }
        } else {
            let r = spec_find_name(names, s);
            assert(r == r0 + 1);
            assert(names[r] == rest[r0]);
            assert forall|k: int| 0 <= k < r implies names[k] != s by {
                if k > 0 {
                    assert(rest[k - 1] == names[k]);
                }
            }
        }
    }
}

/// The first match among a prefix of pairwise distinct positions is the
/// position itself.
pub proof fn lemma_find_name_at(names: Seq<Seq<char>>, s: Seq<char>, i: int)
    requires
        0 <= i < names.len(),
        names[i] == s,
        forall|k: int| 0 <= k < i ==> names[k] != s,
    ensures
        spec_find_name(names, s) == i,
    decreases i,
{
    if i > 0 {
        lemma_find_name_at(names.drop_first(), s, i - 1);
        assert(forall|k: int|
            0 <= k < names.drop_first().len() ==> names.drop_first()[k] == names[k + 1]);
    }
}

/// The per-register columns of the collected traces: for every input
/// register, in a fixed order, the ordered values it took in each run.
pub struct TraceMatrix {
    pub cols: Vec<(String, Vec<BaseT>)>,
}

impl TraceMatrix {
    /// Register names in column order.
    pub open spec fn names(self) -> Seq<Seq<char>> {
        self.cols@.map_values(|c: (String, Vec<BaseT>)| c.0@)
    }

    /// Whether a register of that name has a column.
    pub open spec fn contains_name(self, s: Seq<char>) -> bool {
        spec_find_name(self.names(), s) >= 0
    }

    /// The column of the register of that name.
    pub open spec fn col_of(self, s: Seq<char>) -> Seq<BaseT> {
        self.cols@[spec_find_name(self.names(), s)].1@
    }

    /// The number of runs recorded: the common length of all columns.
    pub open spec fn width(self) -> nat {
        if self.cols@.len() == 0 {
            0
        } else {
            self.cols@[0].1@.len()
        }
    }

    /// Register names are pairwise distinct and all columns have the same
    /// length.
    pub open spec fn wf(self) -> bool {
        &&& forall|i: int, j: int|
            0 <= i < j < self.names().len() ==> self.names()[i] != self.names()[j]
        &&& forall|i: int|
            0 <= i < self.cols@.len() ==> (#[trigger] self.cols@[i].1@).len() == self.width()
    }

    /// An empty matrix with one column per register, in the given order.
    pub fn new(registers: &Vec<String>) -> (r: TraceMatrix)
        requires
            forall|i: int, j: int|
                0 <= i < j < registers@.len() ==> registers@[i]@ != registers@[j]@,
        ensures
            r.wf(),
            r.names() == registers@.map_values(|s: String| s@),
            r.width() == 0,
            r.cols@.len() == registers@.len(),
    {
        let mut cols: Vec<(String, Vec<BaseT>)> = Vec::new();
        let mut i: usize = 0;
        while i < registers.len()
            invariant
                i <= registers@.len(),
                cols@.len() == i,
                forall|k: int| 0 <= k < i ==> cols@[k].0@ == registers@[k]@,
                forall|k: int| 0 <= k < i ==> (#[trigger] cols@[k].1@).len() == 0,
            decreases registers@.len() - i,
        {
            cols.push((registers[i].clone(), Vec::new()));
            i += 1;
        }
        let r = TraceMatrix { cols };
        proof {
            assert(r.names() =~= registers@.map_values(|s: String| s@));
        }
        r
    }

    /// The position of the column of that register, if one exists.
    pub fn find_col(&self, name: &String) -> (r: Option<usize>)
        ensures
            match r {
                Some(i) => {
                    &&& i < self.cols@.len()
                    &&& self.names()[i as int] == name@
                    &&& spec_find_name(self.names(), name@) == i
                },
                None => !self.contains_name(name@),
            },
    {
        let n = self.cols.len();
        let mut i: usize = 0;
        while i < n
            invariant
                i <= n,
                n == self.cols@.len(),
                forall|k: int| 0 <= k < i ==> self.names()[k] != name@,
            decreases n - i,
        {
            if self.cols[i].0 == *name {
                proof {
                    lemma_find_name_at(self.names(), name@, i as int);
                }
                return Some(i);
            }
            i += 1;
        }
        proof {
            lemma_find_name_props(self.names(), name@);
        }
        None
    }

    /// Append one run: `values[i]` goes to column `i`.
    pub fn push_row(&mut self, values: &Vec<BaseT>)
        requires
            old(self).wf(),
            values@.len() == old(self).cols@.len(),
        ensures
            final(self).wf(),
            final(self).names() == old(self).names(),
            final(self).cols@.len() == old(self).cols@.len(),
            old(self).cols@.len() > 0 ==> final(self).width() == old(self).width() + 1,
            forall|k: int|
                0 <= k < old(self).cols@.len() ==> (#[trigger] final(self).cols@[k].1@)
                    == old(self).cols@[k].1@.push(values@[k]),
    {
        let n = self.cols.len();
        let ghost orig = *self;
        let mut i: usize = 0;
        while i < n
            invariant
                i <= n,
                n == self.cols@.len(),
                n == orig.cols@.len(),
                values@.len() == n,
                forall|k: int| 0 <= k < n ==> self.cols@[k].0 == orig.cols@[k].0,
                forall|k: int|
                    0 <= k < i ==> (#[trigger] self.cols@[k].1@)
                        == orig.cols@[k].1@.push(values@[k]),
                forall|k: int| i <= k < n ==> self.cols@[k].1 == orig.cols@[k].1,
            decreases n - i,
        {
            self.cols[i].1.push(values[i]);
            i += 1;
        }
        proof {
            assert(self.names() =~= orig.names());
            assert forall|k: int|
                0 <= k < self.cols@.len() implies (#[trigger] self.cols@[k].1@).len()
                == self.width() by {
                assert(self.cols@[k].1@ == orig.cols@[k].1@.push(values@[k]));
                assert(self.cols@[0].1@ == orig.cols@[0].1@.push(values@[0]));
            }
        }
    }
}


/// Whether `c` is a decimal digit.
pub open spec fn is_digit(c: char) -> bool {
    48 <= c as int <= 57
}

/// The numeric value of a digit character.
pub open spec fn digit_val(c: char) -> int {
    c as int - 48
}

/// The number a sequence of digit characters denotes.
pub open spec fn digits_val(s: Seq<char>) -> int
    decreases s.len(),
{
    if s.len() == 0 {
        0
    } else {
        digits_val(s.drop_last()) * 10 + digit_val(s.last())
    }
}

pub open spec fn all_digits(s: Seq<char>) -> bool {
    forall|k: int| 0 <= k < s.len() ==> is_digit(#[trigger] s[k])
}

/// The 64-bit word a character sequence denotes: an optional sign, then at
/// least one decimal digit, within the word's range; anything else has no
/// value.
pub open spec fn parse_i64_spec(s: Seq<char>) -> Option<i64> {
    let neg = s.len() > 0 && s[0] == '-';
    let ds = if s.len() > 0 && (s[0] == '-' || s[0] == '+') {
        s.drop_first()
    } else {
        s
    };
    if ds.len() == 0 || !all_digits(ds) {
        None
    } else {
        let v = digits_val(ds);
        if neg {
            if -v >= i64::MIN {
                Some((-v) as i64)
            } else {
                None
            }
        } else {
            if v <= i64::MAX {
                Some(v as i64)
            } else {
                None
            }
        }
    }
}

/// A digit sequence denotes a value no smaller than any of its prefixes,
/// and never a negative one.
proof fn lemma_digits_val_mono(s: Seq<char>, j: int)
    requires
        0 <= j <= s.len(),
        all_digits(s),
    ensures
        digits_val(s) >= digits_val(s.take(j)) >= 0,
    decreases s.len(),
{
    if s.len() == 0 {
        assert(s.take(j) =~= s);
    } else if j == s.len() {
        assert(s.take(j) =~= s);
        lemma_digits_val_mono(s.drop_last(), s.len() - 1);
        assert(s.drop_last().take(s.len() - 1) =~= s.drop_last());
    } else {
        assert(all_digits(s.drop_last()));
        lemma_digits_val_mono(s.drop_last(), j);
        assert(s.drop_last().take(j) =~= s.take(j));
    }
}

/// The 64-bit word a character sequence denotes, if any.
pub fn parse_i64(s: &str) -> (r: Option<i64>)
    ensures
        r == parse_i64_spec(s@),
{
    let n = s.unicode_len();
    if n == 0 {
        return None;
    }
    let c0 = s.get_char(0);
    let neg = c0 == '-';
    let start: usize = if c0 == '-' || c0 == '+' {
        1
    } else {
        0
    };
    let ghost ds = if start == 1 {
        s@.drop_first()
    } else {
        s@
    };
    if n == start {
        return None;
    }
    let mut acc: u128 = 0;
    let mut i = start;
    while i < n
        invariant
            start <= i <= n,
            n == s@.len(),
            start == 1 ==> s@.len() > 0 && (s@[0] == '-' || s@[0] == '+'),
            start == 0 ==> s@.len() == 0 || (s@[0] != '-' && s@[0] != '+'),
            ds == (if start == 1 {
                s@.drop_first()
            } else {
                s@
            }),
            ds.len() == n - start,
            forall|k: int| 0 <= k < i - start ==> is_digit(#[trigger] ds[k]),
            acc == digits_val(ds.take(i - start)),
            acc <= 0x8000000000000000,
        decreases n - i,
    {
        let c = s.get_char(i);
        let cv = c as u32;
        proof {
            assert(ds[i - start] == s@[i as int]);
        }
        if cv < 48 || cv > 57 {
            return None;
        }
        let d = cv - 48;
        acc = acc * 10 + (d as u128);
        proof {
            let m = i - start;
            assert(ds.take(m + 1).drop_last() =~= ds.take(m));
            assert(ds.take(m + 1).last() == ds[m]);
        }
        i += 1;
        if acc > 0x8000000000000000 {
            proof {
                if all_digits(ds) {
                    lemma_digits_val_mono(ds, i - start);
                }
            }
            return None;
        }
    }
    proof {
        assert(ds.take(n - start) =~= ds);
    }
    if neg {
        if acc == 0x8000000000000000 {
            Some(i64::MIN)
        } else {
            Some(-(acc as i64))
        }
    } else {
        if acc == 0x8000000000000000 {
            None
        } else {
            Some(acc as i64)
        }
    }
}

/// The collected observations: the per-register input columns and the
/// ordered true outputs, one per run.
pub struct Traces {
    pub inputs: TraceMatrix,
    pub outputs: Vec<BaseT>,
}

impl Traces {
    /// The matrix is well formed and every input column is as long as the
    /// output column.
    pub open spec fn wf(self) -> bool {
        &&& self.inputs.wf()
        &&& forall|i: int|
            0 <= i < self.inputs.cols@.len() ==> (#[trigger] self.inputs.cols@[i].1@).len()
                == self.outputs@.len()
    }

    /// Append one observation given as text: one value per register, keyed
    /// by register name in any order, and the observed output. Nothing is
    /// appended unless the named registers are exactly the session's and
    /// every value parses.
    pub fn push_strings(&mut self, registers: Vec<String>, input: Vec<String>, output: String) -> (r:
        Result<(), String>)
        requires
            old(self).wf(),
        ensures
            final(self).wf(),
            r is Ok <==> {
                let entry_names = registers@.map_values(|s: String| s@);
                &&& registers@.len() == input@.len()
                &&& registers@.len() == old(self).inputs.cols@.len()
                &&& forall|j: int|
                    0 <= j < old(self).inputs.cols@.len() ==> spec_find_name(
                        entry_names,
                        #[trigger] old(self).inputs.names()[j],
                    ) >= 0
                &&& forall|j: int|
                    0 <= j < old(self).inputs.cols@.len() ==> (#[trigger] parse_i64_spec(
                        input@[spec_find_name(entry_names, old(self).inputs.names()[j])]@,
                    )) is Some
                &&& parse_i64_spec(output@) is Some
            },
            r is Ok ==> {
                let entry_names = registers@.map_values(|s: String| s@);
                &&& final(self).outputs@ == old(self).outputs@.push(
                    parse_i64_spec(output@).unwrap(),
                )
                &&& final(self).inputs.cols@.len() == old(self).inputs.cols@.len()
                &&& final(self).inputs.names() == old(self).inputs.names()
                &&& forall|j: int|
                    0 <= j < old(self).inputs.cols@.len() ==> (
                    #[trigger] final(self).inputs.cols@[j].1@) == old(self).inputs.cols@[j].1@.push(
                        parse_i64_spec(
                            input@[spec_find_name(entry_names, old(self).inputs.names()[j])]@,
                        ).unwrap(),
                    )
            },
            r is Err ==> *final(self) == *old(self),
            registers@.len() != input@.len() ==> (r matches Err(m) && m@
                == "expected one input for each register"@),
    {
        proof {
            reveal_strlit("expected one input for each register");
            reveal_strlit("trace registers do not match the session registers");
            reveal_strlit("malformed trace value");
        }
        if registers.len() != input.len() {
            return Err("expected one input for each register".to_owned());
        }
        let m = self.inputs.cols.len();
        if registers.len() != m {
            return Err("trace registers do not match the session registers".to_owned());
        }
        let ghost entry_names = registers@.map_values(|s: String| s@);
        let mut values: Vec<BaseT> = Vec::new();
        let mut j: usize = 0;
        while j < m
            invariant
                *self == *old(self),
                old(self).wf(),
                m == self.inputs.cols@.len(),
                m == registers@.len(),
                m == input@.len(),
                entry_names == registers@.map_values(|s: String| s@),
                j <= m,
                values@.len() == j,
                forall|t: int|
                    0 <= t < j ==> spec_find_name(
                        entry_names,
                        #[trigger] self.inputs.names()[t],
                    ) >= 0 && parse_i64_spec(
                        input@[spec_find_name(entry_names, self.inputs.names()[t])]@,
                    ) == Some(values@[t]),
            decreases m - j,
        {
            let name = &self.inputs.cols[j].0;
            let mut k: usize = 0;
            let mut found = false;
            while k < registers.len() && !found
                invariant
                    *self == *old(self),
                    old(self).wf(),
                    j < m,
                    m == self.inputs.cols@.len(),
                    m == registers@.len(),
                    m == input@.len(),
                    name == &self.inputs.cols@[j as int].0,
                    entry_names == registers@.map_values(|s: String| s@),
                    k <= registers@.len(),
                    !found ==> forall|t: int| 0 <= t < k ==> entry_names[t] != name@,
                    found ==> k > 0 && entry_names[k - 1] == name@ && (forall|t: int|
                        0 <= t < k - 1 ==> entry_names[t] != name@),
                decreases registers@.len() - k + (if found {
                    0int
                } else {
                    1int
                }),
            {
                if registers[k] == *name {
                    found = true;
                }
                k += 1;
            }
            if !found {
                proof {
                    lemma_find_name_props(entry_names, name@);
                    assert(old(self).inputs.names()[j as int] == name@);
                }
                return Err("trace registers do not match the session registers".to_owned());
            }
            proof {
                lemma_find_name_at(entry_names, name@, k - 1);
            }
            match parse_i64(input[k - 1].as_str()) {
                Some(v) => {
                    values.push(v);
                },
                None => {
                    proof {
                        assert(old(self).inputs.names()[j as int] == name@);
                        assert(spec_find_name(entry_names, name@) == k - 1);
                    }
                    return Err("malformed trace value".to_owned());
                },
            }
            j += 1;
        }
        let out = match parse_i64(output.as_str()) {
            Some(v) => v,
            None => {
                return Err("malformed trace value".to_owned());
            },
        };
        self.inputs.push_row(&values);
        self.outputs.push(out);
        Ok(())
    }

}

/// Where the target function lives and how it is driven: the binary path,
/// the function's location, its length in instructions, and the register
/// interface.
pub struct FcnConfig {
    pub path: String,
    pub loc: String,
    pub len: String,
    pub input_regs: Vec<String>,
    pub output_reg: String,
}

/// The available synthesis back ends.
pub enum Synthesiser {
    Tree,
}

/// Errors of a session: the emulator pipe failed, a command failed, or a
/// trace named other registers than the session.
#[derive(Debug, Clone, Copy, PartialEq, Eq, Structural)]
pub enum R2Error {
    PipeFail,
    CmdFail,
    BadTrace,
}

/// One synthesis session: the target's configuration and the observations
/// collected so far.
pub struct Session {
    pub fcn_config: FcnConfig,
    pub traces: Traces,
}

impl Session {
    /// The traces are well formed and their columns are the session's
    /// input registers, in order.
    pub open spec fn wf(self) -> bool {
        &&& self.traces.wf()
        &&& self.traces.inputs.names() == self.fcn_config.input_regs@.map_values(|s: String| s@)
    }

    /// A fresh session for the given target, with one empty column per
    /// input register.
    pub fn init(fcn: FcnConfig) -> (r: Session)
        requires
            forall|i: int, j: int|
                0 <= i < j < fcn.input_regs@.len() ==> fcn.input_regs@[i]@ != fcn.input_regs@[j]@,
        ensures
            r.wf(),
            r.fcn_config == fcn,
            r.traces.outputs@.len() == 0,
            r.traces.inputs.cols@.len() == fcn.input_regs@.len(),
            r.traces.inputs.names() == fcn.input_regs@.map_values(|s: String| s@),
    {
        let inputs = TraceMatrix::new(&fcn.input_regs);
        Session { fcn_config: fcn, traces: Traces { inputs, outputs: Vec::new() } }
    }

    /// Append one observation: a value for every session register, keyed
    /// by register name, and the observed output. A trace whose register
    /// set differs from the session's is rejected as `BadTrace` and
    /// nothing is appended.
    pub fn add_trace(&mut self, inputs: &Vec<(String, BaseT)>, output: BaseT) -> (r: Result<
        (),
        R2Error,
    >)
        requires
            old(self).wf(),
        ensures
            final(self).wf(),
            final(self).fcn_config == old(self).fcn_config,
            r is Ok <==> {
                &&& inputs@.len() == old(self).traces.inputs.cols@.len()
                &&& forall|j: int|
                    0 <= j < old(self).traces.inputs.cols@.len() ==> spec_find_name(
                        inputs@.map_values(|p: (String, BaseT)| p.0@),
                        #[trigger] old(self).traces.inputs.names()[j],
                    ) >= 0
            },
            r is Ok ==> {
                &&& final(self).traces.outputs@ == old(self).traces.outputs@.push(output)
                &&& final(self).traces.inputs.names() == old(self).traces.inputs.names()
                &&& forall|j: int|
                    0 <= j < old(self).traces.inputs.cols@.len() ==> (
                    #[trigger] final(self).traces.inputs.cols@[j].1@) == old(
                        self,
                    ).traces.inputs.cols@[j].1@.push(
                        inputs@[spec_find_name(
                            inputs@.map_values(|p: (String, BaseT)| p.0@),
                            old(self).traces.inputs.names()[j],
                        )].1,
                    )
            },
            r is Err ==> *final(self) == *old(self) && r == Err::<(), R2Error>(R2Error::BadTrace),
    {
        let m = self.traces.inputs.cols.len();
        if inputs.len() != m {
            return Err(R2Error::BadTrace);
        }
        let ghost entry_names = inputs@.map_values(|p: (String, BaseT)| p.0@);
        let mut values: Vec<BaseT> = Vec::new();
        let mut j: usize = 0;
        while j < m
            invariant
                *self == *old(self),
                old(self).wf(),
                j <= m,
                m == self.traces.inputs.cols@.len(),
                m == inputs@.len(),
                entry_names == inputs@.map_values(|p: (String, BaseT)| p.0@),
                values@.len() == j,
                forall|t: int|
                    0 <= t < j ==> spec_find_name(
                        entry_names,
                        #[trigger] self.traces.inputs.names()[t],
                    ) >= 0 && values@[t] == inputs@[spec_find_name(
                        entry_names,
                        self.traces.inputs.names()[t],
                    )].1,
            decreases m - j,
        {
            let name = &self.traces.inputs.cols[j].0;
            let mut k: usize = 0;
            let mut found = false;
            while k < inputs.len() && !found
                invariant
                    *self == *old(self),
                    old(self).wf(),
                    j < m,
                    m == self.traces.inputs.cols@.len(),
                    m == inputs@.len(),
                    name == &self.traces.inputs.cols@[j as int].0,
                    k <= inputs@.len(),
                    entry_names == inputs@.map_values(|p: (String, BaseT)| p.0@),
                    !found ==> forall|t: int| 0 <= t < k ==> entry_names[t] != name@,
                    found ==> k > 0 && entry_names[k - 1] == name@ && (forall|t: int|
                        0 <= t < k - 1 ==> entry_names[t] != name@),
                decreases inputs@.len() - k + (if found {
                    0int
                } else {
                    1int
                }),
            {
                if inputs[k].0 == *name {
                    found = true;
                }
                k += 1;
            }
            if !found {
                proof {
                    lemma_find_name_props(entry_names, name@);
                    assert(old(self).traces.inputs.names()[j as int] == name@);
                }
                return Err(R2Error::BadTrace);
            }
            proof {
                lemma_find_name_at(entry_names, name@, k - 1);
            }
            values.push(inputs[k - 1].1);
            j += 1;
        }
        self.traces.inputs.push_row(&values);
        self.traces.outputs.push(output);
        Ok(())
    }
}


impl Session {
    /// Recover a symbolic expression for the observed behaviour with the
    /// chosen back end, and hand back the final search state. A reported
    /// winner evaluates over the collected input columns to exactly the
    /// collected outputs; without a winner, no frontier candidate is
    /// perfect, and the search has expanded the root through the whole
    /// term set.
    pub fn deobfuscate(self, backend: Synthesiser) -> (r: (SynthResult, Synthesis))
        requires
            self.wf(),
        ensures
            r.1.inv(),
            scores_consistent(r.1.tree@, self.traces.inputs, self.traces.outputs@),
            r.1.queue@ == frontier(r.1.tree@, r.1.tree@.len() as int),
            derived_edges(r.1.tree@, r.1.terms@),
            r.1.tree@[0].expression == crate::ast::Expression::NonTerminal,
            r.1.terms@ == crate::ast::spec_combinations(
                self.fcn_config.input_regs@,
                seq![
                    crate::calc::Operator::Add,
                    crate::calc::Operator::Sub,
                    crate::calc::Operator::Mul,
                    crate::calc::Operator::Div,
                ],
            ),
            r.0.winner matches Some(e) ==> e.finite() && e.spec_eval(self.traces.inputs) == Some(
                self.traces.outputs@,
            ) && (exists|w: int|
                r.1.sole_perfect_leaf(w) && e == r.1.tree@[w].expression),
            r.0.winner is None ==> r.1.no_perfect_leaf(),
            r.0.winner is Some || r.1.tree@.len() >= 1 + r.1.terms@.len(),
            r.0.expanded_nodes == r.1.tree@.len() - 1,
            ({
                let b = best_finite(r.1.tree@, r.1.tree@.len() as int);
                &&& (b == -1 ==> r.0.best == r.1.tree@[0].expression && r.0.best_score == 0)
                &&& (b >= 0 ==> r.0.best == r.1.tree@[b].expression && r.0.best_score
                    == r.1.tree@[b].score)
            }),
    {
        match backend {
            Synthesiser::Tree => {
                let mut synthesis = Synthesis::default(&self.fcn_config.input_regs);
                proof {
                    assert(trace_wf(self.traces.inputs, self.traces.outputs@));
                    assert forall|i: int|
                        0 <= i < synthesis.tree@.len() implies node_score_consistent(
                        #[trigger] synthesis.tree@[i],
                        self.traces.inputs,
                        self.traces.outputs@,
                    ) by {
                        assert(!synthesis.tree@[i].expression.finite());
                    }
                }
                let result = synthesis.synthesize(&self.traces.inputs, &self.traces.outputs);
                (result, synthesis)
            },
        }
    }
}

} // verus!
