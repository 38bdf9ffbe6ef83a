use vstd::prelude::*;

verus! {

/// One action of a transition, named as in the source text.
#[derive(Clone, Debug)]
pub enum Step {
    MoveLeft,
    MoveRight,
    Write(String),
    NoOp,
}

/// When a transition fires: on the listed symbols, or on every symbol that no
/// explicit condition of the same source state claims.
#[derive(Clone, Debug)]
pub enum Condition {
    Explicit(Vec<String>),
    Remainder,
}

#[derive(Clone, Debug)]
pub struct Transition {
    pub source: String,
    pub condition: Condition,
    pub steps: Vec<Step>,
    pub target: String,
}

/// A parsed tape machine: its alphabet, its control states and its transitions.
#[derive(Clone, Debug)]
pub struct Machine {
    pub symbols: Vec<String>,
    pub states: Vec<String>,
    pub transitions: Vec<Transition>,
}

/// A step with its symbol replaced by the symbol's position in the alphabet.
#[derive(Clone, Copy, Debug, PartialEq, Eq)]
pub enum Action {
    MoveLeft,
    MoveRight,
    Write(usize),
    NoOp,
}

/// A condition with its symbols replaced by their positions in the alphabet.
#[derive(Clone, Debug)]
pub enum Guard {
    Explicit(Vec<usize>),
    Remainder,
}

/// A transition whose states and symbols are given by position.
#[derive(Clone, Debug)]
pub struct Rule {
    pub source: usize,
    pub guard: Guard,
    pub actions: Vec<Action>,
    pub target: usize,
}

/// A machine whose names have all been replaced by their positions.
#[derive(Clone, Debug)]
pub struct IndexedMachine {
    pub n_symbols: usize,
    pub n_states: usize,
    pub rules: Vec<Rule>,
}

#[derive(Clone, Debug, PartialEq, Eq)]
pub enum CompileError {
    /// A transition names a state that the machine does not declare.
    UndeclaredState(String),
    /// A transition names a symbol that the machine does not declare.
    UndeclaredSymbol(String),
    /// Two explicit conditions of one source state both claim a symbol.
    Ambiguous { state: usize, symbol: usize },
    /// One source state has more than one remainder condition.
    MultipleRemainder { state: usize },
}

// ---------------------------------------------------------------------------
// Names and positions

pub open spec fn declared(names: Seq<String>, name: Seq<char>) -> bool {
    exists|j: int| 0 <= j < names.len() && #[trigger] names[j]@ == name
}

/// `i` is the first position of `name` in `names`.
pub open spec fn first_at(names: Seq<String>, name: Seq<char>, i: int) -> bool {
    &&& 0 <= i < names.len()
    &&& names[i]@ == name
    &&& forall|j: int| 0 <= j < i ==> #[trigger] names[j]@ != name
}

pub open spec fn step_declared(symbols: Seq<String>, s: Step) -> bool {
    match s {
        Step::Write(sym) => declared(symbols, sym@),
        _ => true,
    }
}

pub open spec fn condition_declared(symbols: Seq<String>, c: Condition) -> bool {
    match c {
        Condition::Explicit(syms) => {
            forall|k: int| 0 <= k < syms@.len() ==> declared(symbols, #[trigger] syms@[k]@)
        },
        Condition::Remainder => true,
    }
}

/// Every name in `t` is declared by `m`.
pub open spec fn transition_declared(m: Machine, t: Transition) -> bool {
    &&& declared(m.states@, t.source@)
    &&& declared(m.states@, t.target@)
    &&& condition_declared(m.symbols@, t.condition)
    &&& forall|k: int| 0 <= k < t.steps@.len() ==> step_declared(m.symbols@, #[trigger] t.steps@[k])
}

pub open spec fn machine_declared(m: Machine) -> bool {
    forall|i: int| 0 <= i < m.transitions@.len() ==> transition_declared(m, #[trigger] m.transitions@[i])
}

/// `name` stands in `t` where a state is expected.
pub open spec fn names_state(t: Transition, name: Seq<char>) -> bool {
    t.source@ == name || t.target@ == name
}

/// `name` stands in `t` where a symbol is expected.
pub open spec fn names_symbol(t: Transition, name: Seq<char>) -> bool {
    ||| (t.condition matches Condition::Explicit(syms) && exists|k: int|
        0 <= k < syms@.len() && #[trigger] syms@[k]@ == name)
    ||| exists|k: int| 0 <= k < t.steps@.len() && writes_name(#[trigger] t.steps@[k], name)
}

pub open spec fn writes_name(s: Step, name: Seq<char>) -> bool {
    s matches Step::Write(sym) && sym@ == name
}

pub open spec fn action_of(symbols: Seq<String>, s: Step, a: Action) -> bool {
    match s {
        Step::MoveLeft => a == Action::MoveLeft,
        Step::MoveRight => a == Action::MoveRight,
        Step::NoOp => a == Action::NoOp,
        Step::Write(sym) => a matches Action::Write(i) && first_at(symbols, sym@, i as int),
    }
}

pub open spec fn guard_of(symbols: Seq<String>, c: Condition, g: Guard) -> bool {
    match c {
        Condition::Remainder => g is Remainder,
        Condition::Explicit(syms) => g matches Guard::Explicit(ix) && ix@.len() == syms@.len()
            && forall|k: int| 0 <= k < ix@.len() ==> first_at(symbols, #[trigger] syms@[k]@, ix@[k] as int),
    }
}

/// `r` is `t` with every name replaced by its first position in `m`.
pub open spec fn rule_of(m: Machine, t: Transition, r: Rule) -> bool {
    &&& first_at(m.states@, t.source@, r.source as int)
    &&& first_at(m.states@, t.target@, r.target as int)
    &&& guard_of(m.symbols@, t.condition, r.guard)
    &&& r.actions@.len() == t.steps@.len()
    &&& forall|k: int| 0 <= k < t.steps@.len() ==> action_of(m.symbols@, #[trigger] t.steps@[k], r.actions@[k])
}

pub open spec fn indexed_of(m: Machine, im: IndexedMachine) -> bool {
    &&& im.n_symbols == m.symbols@.len()
    &&& im.n_states == m.states@.len()
    &&& im.rules@.len() == m.transitions@.len()
    &&& forall|i: int| 0 <= i < im.rules@.len() ==> rule_of(m, #[trigger] m.transitions@[i], im.rules@[i])
}

pub open spec fn action_wf(a: Action, n_symbols: int) -> bool {
    a matches Action::Write(i) ==> i < n_symbols
}

pub open spec fn guard_wf(g: Guard, n_symbols: int) -> bool {
    g matches Guard::Explicit(ix) ==> forall|k: int| 0 <= k < ix@.len() ==> #[trigger] ix@[k] < n_symbols
}

pub open spec fn rule_wf(r: Rule, n_symbols: int, n_states: int) -> bool {
    &&& r.source < n_states
    &&& r.target < n_states
    &&& guard_wf(r.guard, n_symbols)
    &&& forall|k: int| 0 <= k < r.actions@.len() ==> action_wf(#[trigger] r.actions@[k], n_symbols)
}

impl IndexedMachine {
    /// Every position in the machine is in range.
    pub open spec fn wf(&self) -> bool {
        forall|i: int| 0 <= i < self.rules@.len()
            ==> rule_wf(#[trigger] self.rules@[i], self.n_symbols as int, self.n_states as int)
    }
}

/// The first position of `name` in `names`, if any.
pub fn position_of(names: &Vec<String>, name: &String) -> (r: Option<usize>)
    ensures
        r matches Some(i) ==> first_at(names@, name@, i as int),
        r is None <==> !declared(names@, name@),
{
    let mut i: usize = 0;
    while i < names.len()
        invariant
            i <= names@.len(),
            forall|j: int| 0 <= j < i ==> #[trigger] names@[j]@ != name@,
        decreases names@.len() - i,
    {
        if names[i] == *name {
            return Some(i);
        }
        i += 1;
    }
    None
}

/// What an undeclared name in a transition is reported as.
pub open spec fn reports_undeclared(m: Machine, t: Transition, e: CompileError) -> bool {
    match e {
        CompileError::UndeclaredState(n) => !declared(m.states@, n@) && names_state(t, n@),
        CompileError::UndeclaredSymbol(n) => !declared(m.symbols@, n@) && names_symbol(t, n@),
        _ => false,
    }
}

fn index_step(symbols: &Vec<String>, s: &Step) -> (r: Result<Action, CompileError>)
    ensures
        r is Ok <==> step_declared(symbols@, *s),
        r matches Ok(a) ==> action_of(symbols@, *s, a),
        r matches Err(e) ==> e == CompileError::UndeclaredSymbol(s->Write_0),
{
    match s {
        Step::MoveLeft => Ok(Action::MoveLeft),
        Step::MoveRight => Ok(Action::MoveRight),
        Step::NoOp => Ok(Action::NoOp),
        Step::Write(sym) => match position_of(symbols, sym) {
            Some(i) => Ok(Action::Write(i)),
            None => Err(CompileError::UndeclaredSymbol(sym.clone())),
        },
    }
}

fn index_condition(symbols: &Vec<String>, c: &Condition) -> (r: Result<Guard, CompileError>)
    ensures
        r is Ok <==> condition_declared(symbols@, *c),
        r matches Ok(g) ==> guard_of(symbols@, *c, g),
        r matches Err(e) ==> c matches Condition::Explicit(syms) && e matches CompileError::UndeclaredSymbol(n)
            && !declared(symbols@, n@) && exists|k: int| 0 <= k < syms@.len() && #[trigger] syms@[k]@ == n@,
{
    match c {
        Condition::Remainder => Ok(Guard::Remainder),
        Condition::Explicit(syms) => {
            let mut ix: Vec<usize> = Vec::new();
            let mut k: usize = 0;
            while k < syms.len()
                invariant
                    *c == Condition::Explicit(*syms),
                    k <= syms@.len(),
                    ix@.len() == k,
                    forall|j: int| 0 <= j < k ==> first_at(symbols@, #[trigger] syms@[j]@, ix@[j] as int),
                decreases syms@.len() - k,
            {
                match position_of(symbols, &syms[k]) {
                    Some(i) => ix.push(i),
                    None => {
                        let n = syms[k].clone();
                        assert(n@ == syms@[k as int]@);
                        assert(!declared(symbols@, syms@[k as int]@));
                        assert(c->Explicit_0 == *syms);
                        return Err(CompileError::UndeclaredSymbol(n));
                    },
                }
                k += 1;
            }
            Ok(Guard::Explicit(ix))
        },
    }
}

fn index_transition(m: &Machine, t: &Transition) -> (r: Result<Rule, CompileError>)
    ensures
        r is Ok <==> transition_declared(*m, *t),
        r matches Ok(rule) ==> rule_of(*m, *t, rule),
        r matches Err(e) ==> reports_undeclared(*m, *t, e),
{
    let source = match position_of(&m.states, &t.source) {
        Some(i) => i,
        None => return Err(CompileError::UndeclaredState(t.source.clone())),
    };
    let target = match position_of(&m.states, &t.target) {
        Some(i) => i,
        None => return Err(CompileError::UndeclaredState(t.target.clone())),
    };
    let guard = match index_condition(&m.symbols, &t.condition) {
        Ok(g) => g,
        Err(e) => return Err(e),
    };
    let mut actions: Vec<Action> = Vec::new();
    let mut k: usize = 0;
    while k < t.steps.len()
        invariant
            k <= t.steps@.len(),
            actions@.len() == k,
            forall|j: int| 0 <= j < k ==> action_of(m.symbols@, #[trigger] t.steps@[j], actions@[j]),
            forall|j: int| 0 <= j < k ==> step_declared(m.symbols@, #[trigger] t.steps@[j]),
        decreases t.steps@.len() - k,
    {
        match index_step(&m.symbols, &t.steps[k]) {
            Ok(a) => actions.push(a),
            Err(e) => {
                assert(writes_name(t.steps@[k as int], t.steps@[k as int]->Write_0@));
                return Err(e);
            },
        }
        k += 1;
    }
    Ok(Rule { source, guard, actions, target })
}

impl Machine {
    /// Replaces every state and symbol name by its position, or reports the
    /// first transition's undeclared name.
    pub fn index(&self) -> (r: Result<IndexedMachine, CompileError>)
        ensures
            r is Ok <==> machine_declared(*self),
            r matches Ok(im) ==> indexed_of(*self, im) && im.wf(),
            r matches Err(e) ==> exists|i: int|
                0 <= i < self.transitions@.len() && reports_undeclared(*self, #[trigger] self.transitions@[i], e),
    {
        let mut rules: Vec<Rule> = Vec::new();
        let mut i: usize = 0;
        while i < self.transitions.len()
            invariant
                i <= self.transitions@.len(),
                rules@.len() == i,
                forall|j: int| 0 <= j < i ==> rule_of(*self, #[trigger] self.transitions@[j], rules@[j]),
                forall|j: int| 0 <= j < i ==> transition_declared(*self, #[trigger] self.transitions@[j]),
            decreases self.transitions@.len() - i,
        {
            match index_transition(self, &self.transitions[i]) {
                Ok(rule) => rules.push(rule),
                Err(e) => return Err(e),
            }
            i += 1;
        }
        let im = IndexedMachine { n_symbols: self.symbols.len(), n_states: self.states.len(), rules };
        assert forall|j: int| 0 <= j < im.rules@.len() implies
            rule_wf(#[trigger] im.rules@[j], im.n_symbols as int, im.n_states as int) by {
            let t = self.transitions@[j];
            let r = im.rules@[j];
            assert(rule_of(*self, t, r));
            assert forall|k: int| 0 <= k < r.actions@.len() implies action_wf(#[trigger] r.actions@[k], im.n_symbols as int) by {
                assert(action_of(self.symbols@, t.steps@[k], r.actions@[k]));
            }
            if let Guard::Explicit(ix) = r.guard {
                let syms = t.condition->Explicit_0;
                assert forall|k: int| 0 <= k < ix@.len() implies #[trigger] ix@[k] < im.n_symbols by {
                    assert(first_at(self.symbols@, syms@[k]@, ix@[k] as int));
                }
            }
        }
        Ok(im)
    }
}

} // verus!
