//! Virtual processes as coroutines.
//!
//! A `Coroutine` is what the scheduler knows of a virtual process. The machine
//! context it runs on is owned by whoever performs the switches; the functions
//! here say what a switch means for the process.

use vstd::prelude::*;

verus! {

/// Number of a virtual process.
pub type VPid = u32;

/// What a coroutine waits for when it yielded until descriptors are ready.
pub struct IoWait {
    /// Kernel descriptors with the events of interest.
    pub fds: Vec<(i32, i16)>,
    /// Time in milliseconds at which to stop waiting; `None` waits indefinitely.
    pub deadline: Option<u64>,
    /// Virtual pipes are polled besides. Only other processes change them, so the
    /// coroutine keeps its place in the queue and looks again at each turn.
    pub polls_pipes: bool,
}

/// An `IoWait` as a mathematical value.
#[verifier::ext_equal]
pub struct IoWaitView {
    pub fds: Seq<(i32, i16)>,
    pub deadline: Option<u64>,
    pub polls_pipes: bool,
}

impl View for IoWait {
    type V = IoWaitView;

    open spec fn view(&self) -> IoWaitView {
        IoWaitView {
            fds: self.fds@,
            deadline: self.deadline,
            polls_pipes: self.polls_pipes,
        }
    }
}

/// Where a coroutine is in its life.
#[derive(Debug, Clone, Copy, PartialEq, Eq, Structural)]
pub enum State {
    Ready,
    Running,
    Done,
}

/// A virtual process.
pub struct Coroutine {
    pub id: VPid,
    pub ppid: VPid,
    pub state: State,
    pub exit_code: i32,
    /// The coroutine is a forked child that has not returned from the fork yet.
    pub is_fork_child: bool,
    /// The child of the last fork.
    pub fork_child_pid: VPid,
    /// Addresses of C strings that live as long as the coroutine.
    pub c_strings: Vec<usize>,
    /// Address and size of mappings that live as long as the coroutine.
    pub mapped_regions: Vec<(usize, usize)>,
    pub pending_signals: Vec<i32>,
    pub cwd: Option<String>,
    pub binary_path: Option<String>,
    pub io_wait: Option<IoWait>,
    /// Address and size of the stack of a loaded program.
    pub stack_alloc: Option<(usize, usize)>,
}

/// A `Coroutine` as a mathematical value.
#[verifier::ext_equal]
pub struct CoroView {
    pub id: VPid,
    pub ppid: VPid,
    pub state: State,
    pub exit_code: i32,
    pub is_fork_child: bool,
    pub fork_child_pid: VPid,
    pub c_strings: Seq<usize>,
    pub mapped_regions: Seq<(usize, usize)>,
    pub pending_signals: Seq<i32>,
    pub cwd: Option<Seq<char>>,
    pub binary_path: Option<Seq<char>>,
    pub io_wait: Option<IoWaitView>,
    pub stack_alloc: Option<(usize, usize)>,
}

/// The characters of an optional string.
pub open spec fn text(s: Option<String>) -> Option<Seq<char>> {
    match s {
        Some(string) => Some(string@),
        None => None,
    }
}

impl View for Coroutine {
    type V = CoroView;

    open spec fn view(&self) -> CoroView {
        CoroView {
            id: self.id,
            ppid: self.ppid,
            state: self.state,
            exit_code: self.exit_code,
            is_fork_child: self.is_fork_child,
            fork_child_pid: self.fork_child_pid,
            c_strings: self.c_strings@,
            mapped_regions: self.mapped_regions@,
            pending_signals: self.pending_signals@,
            cwd: text(self.cwd),
            binary_path: text(self.binary_path),
            io_wait: match self.io_wait {
                Some(wait) => Some(wait@),
                None => None,
            },
            stack_alloc: self.stack_alloc,
        }
    }
}

impl CoroView {
    /// A process that was just created.
    pub open spec fn fresh(id: VPid) -> CoroView {
        CoroView {
            id,
            ppid: 0,
            state: State::Ready,
            exit_code: 0,
            is_fork_child: false,
            fork_child_pid: 0,
            c_strings: Seq::empty(),
            mapped_regions: Seq::empty(),
            pending_signals: Seq::empty(),
            cwd: None,
            binary_path: None,
            io_wait: None,
            stack_alloc: None,
        }
    }

    /// A child forked from this process: it inherits the working directory and
    /// nothing else.
    pub open spec fn forked(self, child_id: VPid) -> CoroView {
        CoroView {
            ppid: self.id,
            is_fork_child: true,
            cwd: self.cwd,
            ..CoroView::fresh(child_id)
        }
    }

    /// The process after it ended with `code`.
    pub open spec fn done_with(self, code: i32) -> CoroView {
        CoroView { state: State::Done, exit_code: code, ..self }
    }

    pub open spec fn is_done(self) -> bool {
        self.state == State::Done
    }

    /// The process gets no turn until a kernel descriptor that it waits for is
    /// ready.
    pub open spec fn sleeps(self) -> bool {
        self.io_wait matches Some(wait) && !wait.polls_pipes
    }

    /// The process after its context gave control back; `dead` says whether the
    /// context ran to its end. A process that ended in the meantime stays ended.
    pub open spec fn switched_back(self, dead: bool) -> CoroView {
        if self.state == State::Done {
            self
        } else if dead {
            CoroView { state: State::Done, ..self }
        } else {
            CoroView { state: State::Ready, ..self }
        }
    }
}

/// A copy of an optional string.
pub(crate) fn copy_text(s: &Option<String>) -> (copy: Option<String>)
    ensures
        text(copy) == text(*s),
{
    match s {
        Some(string) => Some(string.clone()),
        None => None,
    }
}

impl Coroutine {
    /// A new process.
    pub fn new(id: VPid) -> (co: Coroutine)
        ensures
            co@ == CoroView::fresh(id),
    {
        let co = Coroutine {
            id,
            ppid: 0,
            state: State::Ready,
            exit_code: 0,
            is_fork_child: false,
            fork_child_pid: 0,
            c_strings: Vec::new(),
            mapped_regions: Vec::new(),
            pending_signals: Vec::new(),
            cwd: None,
            binary_path: None,
            io_wait: None,
            stack_alloc: None,
        };
        assert(co@ =~= CoroView::fresh(id));
        co
    }

    /// A new process that runs a loaded program on the given stack.
    pub fn new_elf(id: VPid, stack_base: usize, stack_size: usize) -> (co: Coroutine)
        ensures
            co@ == (CoroView {
                stack_alloc: Some((stack_base, stack_size)),
                ..CoroView::fresh(id)
            }),
    {
        let mut co = Coroutine::new(id);
        co.stack_alloc = Some((stack_base, stack_size));
        co
    }

    /// A child process of `parent`.
    pub fn fork_from(child_id: VPid, parent: &Coroutine) -> (co: Coroutine)
        ensures
            co@ == parent@.forked(child_id),
    {
        let mut co = Coroutine::new(child_id);
        co.ppid = parent.id;
        co.is_fork_child = true;
        co.cwd = copy_text(&parent.cwd);
        assert(co@ =~= parent@.forked(child_id));
        co
    }

    /// The process is about to get control.
    pub fn resume(&mut self)
        ensures
            final(self)@ == (CoroView { state: State::Running, ..old(self)@ }),
    {
        self.state = State::Running;
    }

    /// The context of the process gave control back; `dead` says whether it ran
    /// to its end.
    pub fn switched_back(&mut self, dead: bool)
        ensures
            final(self)@ == old(self)@.switched_back(dead),
    {
        match self.state {
            State::Done => {},
            _ => {
                self.state = if dead {
                    State::Done
                } else {
                    State::Ready
                };
            },
        }
    }

    /// The process is about to give up control.
    pub fn yield_now(&mut self)
        ensures
            final(self)@ == (CoroView { state: State::Ready, ..old(self)@ }),
    {
        self.state = State::Ready;
    }

    /// The process ended with `code`.
    pub fn set_done(&mut self, code: i32)
        ensures
            final(self)@ == old(self)@.done_with(code),
    {
        self.state = State::Done;
        self.exit_code = code;
    }

    /// Whether the process gets no turn until a kernel descriptor is ready.
    pub fn sleeps(&self) -> (yes: bool)
        ensures
            yes == self@.sleeps(),
    {
        match &self.io_wait {
            Some(wait) => !wait.polls_pipes,
            None => false,
        }
    }

    /// Whether the process ended.
    pub fn is_done(&self) -> (done: bool)
        ensures
            done == self@.is_done(),
    {
        match self.state {
            State::Done => true,
            _ => false,
        }
    }
}

/// Exit code of a process whose function panicked.
pub const EXIT_PANIC: i32 = 134;

/// Exit code of a process that was started without anything to run.
pub const EXIT_NO_USERDATA: i32 = 128;

/// The exit code of a process whose function returned, or panicked.
pub open spec fn exit_code_of_function(has_userdata: bool, panicked: bool) -> i32 {
    if !has_userdata {
        128i32
    } else if panicked {
        134i32
    } else {
        0i32
    }
}

/// The exit code of a process whose function returned, or panicked.
pub fn trampoline_exit_code(has_userdata: bool, panicked: bool) -> (code: i32)
    ensures
        code == exit_code_of_function(has_userdata, panicked),
{
    if !has_userdata {
        EXIT_NO_USERDATA
    } else if panicked {
        EXIT_PANIC
    } else {
        0
    }
}

/// What a program finds on its stack when it starts.
pub struct ElfStack {
    /// Initial stack pointer: the address of the first word.
    pub sp: usize,
    /// Words from the stack pointer upwards.
    pub words: Vec<u64>,
}

/// The auxiliary vector as words: kind and value of each entry.
pub open spec fn auxv_words(auxv: Seq<[u64; 2]>) -> Seq<u64>
    decreases auxv.len(),
{
    if auxv.len() == 0 {
        Seq::empty()
    } else {
        auxv_words(auxv.drop_last()).push(auxv.last()[0]).push(auxv.last()[1])
    }
}

/// The initial stack contents: argument count, arguments, a null, environment,
/// a null, auxiliary vector.
pub open spec fn stack_words(
    argc: u64,
    argv: Seq<u64>,
    envp: Seq<u64>,
    auxv: Seq<[u64; 2]>,
) -> Seq<u64> {
    seq![argc] + argv + seq![0u64] + envp + seq![0u64] + auxv_words(auxv)
}

/// The number of bytes that `n` words take on the stack, in units of 16.
pub open spec fn stack_bytes(n: int) -> int {
    (8 * n + 15) / 16 * 16
}

/// The number of words of the initial stack contents.
pub open spec fn stack_word_count(argv: nat, envp: nat, auxv: nat) -> int {
    argv + envp + 2 * auxv + 3int
}

proof fn lemma_auxv_words(auxv: Seq<[u64; 2]>)
    ensures
        auxv_words(auxv).len() == 2 * auxv.len(),
    decreases auxv.len(),
{
    if auxv.len() > 0 {
        lemma_auxv_words(auxv.drop_last());
    }
}

fn append_words(words: &mut Vec<u64>, more: &[u64])
    ensures
        final(words)@ == old(words)@ + more@,
{
    let mut i: usize = 0;
    while i < more.len()
        invariant
            i <= more@.len(),
            words@ =~= old(words)@ + more@.take(i as int),
        decreases more.len() - i,
    {
        words.push(more[i]);
        i = i + 1;
    }
    assert(more@.take(i as int) =~= more@);
}

/// Lays out the initial stack of a program at the top of the given stack.
pub fn build_elf_stack(
    stack_base: usize,
    stack_size: usize,
    argc: u64,
    argv: &[u64],
    envp: &[u64],
    auxv: &[[u64; 2]],
) -> (stack: ElfStack)
    requires
        stack_base + stack_size <= usize::MAX,
        stack_bytes(stack_word_count(argv@.len(), envp@.len(), auxv@.len())) <= stack_size,
    ensures
        stack.words@ == stack_words(argc, argv@, envp@, auxv@),
        stack.sp == stack_base + stack_size - stack_bytes(stack.words@.len() as int),
{
    let mut words: Vec<u64> = Vec::new();
    words.push(argc);
    append_words(&mut words, argv);
    words.push(0);
    append_words(&mut words, envp);
    words.push(0);
    let ghost fixed = words@;
    let mut i: usize = 0;
    while i < auxv.len()
        invariant
            i <= auxv@.len(),
            words@ =~= fixed + auxv_words(auxv@.take(i as int)),
        decreases auxv.len() - i,
    {
        words.push(auxv[i][0]);
        words.push(auxv[i][1]);
        proof {
            assert(auxv@.take(i + 1).drop_last() =~= auxv@.take(i as int));
        }
        i = i + 1;
    }
    proof {
        assert(auxv@.take(i as int) =~= auxv@);
        assert(words@ =~= stack_words(argc, argv@, envp@, auxv@));
        lemma_auxv_words(auxv@);
        assert(words@.len() == stack_word_count(argv@.len(), envp@.len(), auxv@.len()));
    }
    let size: usize = (8 * words.len() + 15) / 16 * 16;
    ElfStack { sp: stack_base + stack_size - size, words }
}

/// The initial stack pointer is aligned to 16 bytes where the top of the stack
/// is, all words lie inside the stack, and they end less than 16 bytes below its
/// top.
pub proof fn law_elf_stack(stack_base: usize, stack_size: usize, n: int)
    requires
        n >= 0,
        stack_bytes(n) <= stack_size,
    ensures
        (stack_base + stack_size) % 16 == 0 ==> (stack_base + stack_size - stack_bytes(n)) % 16
            == 0,
        stack_base <= stack_base + stack_size - stack_bytes(n),
        0 <= stack_bytes(n) - 8 * n < 16,
{
}

/// What a program finds on its stack, word by word: the number of arguments, the
/// arguments, a null, the environment, a null, and the kinds and values of the
/// auxiliary vector in turn.
pub proof fn law_stack_layout(
    argc: u64,
    argv: Seq<u64>,
    envp: Seq<u64>,
    auxv: Seq<[u64; 2]>,
    i: int,
)
    ensures
        ({
            let words = stack_words(argc, argv, envp, auxv);
            let env = argv.len() + 2int;
            let aux = argv.len() + envp.len() + 3int;
            &&& words.len() == aux + 2 * auxv.len()
            &&& words[0] == argc
            &&& 0 <= i < argv.len() ==> words[1 + i] == argv[i]
            &&& words[argv.len() + 1int] == 0
            &&& 0 <= i < envp.len() ==> words[env + i] == envp[i]
            &&& words[env + envp.len()] == 0
            &&& 0 <= i < auxv.len() ==> words[aux + 2 * i] == auxv[i][0] && words[aux + 2 * i + 1]
                == auxv[i][1]
            &&& words.len() == stack_word_count(argv.len(), envp.len(), auxv.len())
        }),
{
    lemma_auxv_words(auxv);
    if 0 <= i < auxv.len() {
        lemma_auxv_word(auxv, i);
    }
}

proof fn lemma_auxv_word(auxv: Seq<[u64; 2]>, i: int)
    requires
        0 <= i < auxv.len(),
    ensures
        auxv_words(auxv).len() == 2 * auxv.len(),
        auxv_words(auxv)[2 * i] == auxv[i][0],
        auxv_words(auxv)[2 * i + 1] == auxv[i][1],
    decreases auxv.len(),
{
    lemma_auxv_words(auxv);
    lemma_auxv_words(auxv.drop_last());
    if i < auxv.len() - 1 {
        lemma_auxv_word(auxv.drop_last(), i);
    }
}

/// A new process has not ended, waits for nothing, has no signals and owns nothing;
/// a forked child besides has the parent's working directory and number on record.
pub proof fn law_new_process(co: CoroView, id: VPid)
    ensures
        ({
            let is_new = |p: CoroView|
                {
                    &&& p.id == id
                    &&& p.state == State::Ready
                    &&& p.exit_code == 0
                    &&& p.fork_child_pid == 0
                    &&& p.c_strings.len() == 0
                    &&& p.mapped_regions.len() == 0
                    &&& p.pending_signals.len() == 0
                    &&& p.binary_path is None
                    &&& p.io_wait is None
                    &&& p.stack_alloc is None
                };
            &&& is_new(CoroView::fresh(id))
            &&& CoroView::fresh(id).ppid == 0
            &&& CoroView::fresh(id).cwd is None
            &&& !CoroView::fresh(id).is_fork_child
            &&& is_new(co.forked(id))
            &&& co.forked(id).ppid == co.id
            &&& co.forked(id).cwd == co.cwd
            &&& co.forked(id).is_fork_child
        }),
{
}

/// A process ends once: ending gives it its exit code, and no switch brings it back
/// or changes the code. One whose context ran to its end has ended; any other waits
/// for its next turn.
pub proof fn law_ending_is_final(co: CoroView, code: i32, dead: bool)
    ensures
        co.done_with(code).is_done(),
        co.done_with(code).exit_code == code,
        co.done_with(code).switched_back(dead) == co.done_with(code),
        co.is_done() <==> co.state == State::Done,
        co.switched_back(dead).is_done() <==> co.is_done() || dead,
        !co.is_done() && !dead ==> co.switched_back(dead).state == State::Ready,
        co.switched_back(dead).exit_code == co.exit_code,
        co.switched_back(dead).id == co.id,
        co.switched_back(dead).io_wait == co.io_wait,
        co.switched_back(dead).pending_signals == co.pending_signals,
        co.done_with(code).id == co.id,
        co.sleeps() <==> (co.io_wait is Some && !co.io_wait->0.polls_pipes),
{
}

/// The exit code of a process without anything to run, of one whose function
/// panicked, and of one whose function returned.
pub proof fn law_function_exit_codes(panicked: bool)
    ensures
        exit_code_of_function(false, panicked) == 128,
        exit_code_of_function(true, true) == 134,
        exit_code_of_function(true, false) == 0,
{
}

} // verus!
