//! Adapter lifecycle decisions. The native calls themselves are made by the
//! caller; these functions turn what the driver reported into the outcome of
//! each operation and into the next step of the configuration read protocol.
use vstd::prelude::*;

verus! {

/// The driver's code for a buffer too small for the data it holds.
pub const ERROR_MORE_DATA: u32 = 234;

/// How many times a configuration read is attempted before giving up.
pub const MAX_GET_CONFIG_ATTEMPTS: u32 = 8;

/// The adapter operation that an error comes from.
#[derive(Debug, Clone, Copy, PartialEq, Eq, Structural)]
pub enum Operation {
    Create,
    Open,
    Delete,
    GetConfig,
    SetConfig,
    SetState,
    GetDriverVersion,
}

/// A driver rejection: the operation and the native error code, verbatim.
#[derive(Debug, Clone, Copy, PartialEq, Eq, Structural)]
pub struct DriverError {
    pub operation: Operation,
    pub code: u32,
}

/// Whether the adapter passes traffic.
#[derive(Debug, Clone, Copy, PartialEq, Eq, Structural)]
pub enum AdapterState {
    Down,
    Up,
}

/// A successfully created adapter, and whether the driver asked for a
/// restart to finish installing a support component.
#[derive(Debug, Clone, Copy, PartialEq, Eq, Structural)]
pub struct Created {
    pub handle: usize,
    pub reboot_required: bool,
}

/// An adapter handle that the driver handed out. It is not `Clone` and its
/// fields are private: one value stands for one non-null native handle, and
/// `delete` consumes it.
#[derive(Debug)]
pub struct Adapter {
    handle: usize,
    state: AdapterState,
}

/// What an `Adapter` stands for.
pub struct AdapterModel {
    pub handle: usize,
    pub state: AdapterState,
}

impl View for Adapter {
    type V = AdapterModel;

    closed spec fn view(&self) -> AdapterModel {
        AdapterModel { handle: self.handle, state: self.state }
    }
}

/// The handle that an open or create call returned, where it is valid; a
/// null handle is the driver's refusal, with `last_error` as its reason.
pub fn check_handle(operation: Operation, handle: usize, last_error: u32) -> (r: Result<usize, DriverError>)
    ensures
        handle != 0 ==> r == Ok::<usize, DriverError>(handle),
        handle == 0 ==> r == Err::<usize, DriverError>(DriverError { operation, code: last_error }),
{
    if handle == 0 {
        Err(DriverError { operation, code: last_error })
    } else {
        Ok(handle)
    }
}

/// The running driver's version, where the driver reported one; zero is the
/// driver's answer that none is installed, with `last_error` as its reason.
pub fn driver_version(reported: u32, last_error: u32) -> (r: Result<u32, DriverError>)
    ensures
        reported != 0 ==> r == Ok::<u32, DriverError>(reported),
        reported == 0 ==> r == Err::<u32, DriverError>(
            DriverError { operation: Operation::GetDriverVersion, code: last_error },
        ),
{
    if reported == 0 {
        Err(DriverError { operation: Operation::GetDriverVersion, code: last_error })
    } else {
        Ok(reported)
    }
}

/// The outcome of a create call: a restart request is part of success.
pub fn create_outcome(handle: usize, last_error: u32, reboot_required: bool) -> (r: Result<Created, DriverError>)
    ensures
        handle != 0 ==> r == Ok::<Created, DriverError>(Created { handle, reboot_required }),
        handle == 0 ==> r == Err::<Created, DriverError>(DriverError { operation: Operation::Create, code: last_error }),
{
    match check_handle(Operation::Create, handle, last_error) {
        Ok(h) => Ok(Created { handle: h, reboot_required }),
        Err(e) => Err(e),
    }
}

/// The result of a driver call that reports success as a flag.
pub fn call_outcome(operation: Operation, driver_ok: bool, last_error: u32) -> (r: Result<(), DriverError>)
    ensures
        r == call_outcome_spec(operation, driver_ok, last_error),
{
    if driver_ok {
        Ok(())
    } else {
        Err(DriverError { operation, code: last_error })
    }
}

/// The state after asking for `requested` from `current`.
pub open spec fn state_after(current: AdapterState, requested: AdapterState, driver_ok: bool) -> AdapterState {
    if driver_ok { requested } else { current }
}

impl Adapter {
    #[verifier::type_invariant]
    spec fn handle_not_null(&self) -> bool {
        self.handle != 0
    }

    /// Wraps a handle that the driver handed out; a new adapter is down.
    pub fn new(handle: usize) -> (r: Adapter)
        requires
            handle != 0,
        ensures
            r@.handle == handle,
            r@.state == AdapterState::Down,
    {
        Adapter { handle, state: AdapterState::Down }
    }

    /// The native handle, never null.
    pub fn handle(&self) -> (r: usize)
        ensures
            r == self@.handle,
            r != 0,
    {
        proof {
            use_type_invariant(self);
        }
        self.handle
    }

    /// Whether the adapter was last brought up or down.
    pub fn state(&self) -> (r: AdapterState)
        ensures
            r == self@.state,
    {
        self.state
    }

    /// Records the driver's answer to a request to bring the adapter up or
    /// down: on success the adapter is in the requested state, whatever it
    /// was before; on failure it is unchanged.
    pub fn set_state(&mut self, requested: AdapterState, driver_ok: bool, last_error: u32) -> (r: Result<(), DriverError>)
        ensures
            final(self)@.handle == old(self)@.handle,
            final(self)@.state == state_after(old(self)@.state, requested, driver_ok),
            r == call_outcome_spec(Operation::SetState, driver_ok, last_error),
    {
        proof {
            use_type_invariant(&*self);
        }
        if driver_ok {
            self.state = requested;
        }
        call_outcome(Operation::SetState, driver_ok, last_error)
    }

    /// Records the driver's answer to a request to bring the adapter up.
    pub fn up(&mut self, driver_ok: bool, last_error: u32) -> (r: Result<(), DriverError>)
        ensures
            final(self)@.handle == old(self)@.handle,
            final(self)@.state == state_after(old(self)@.state, AdapterState::Up, driver_ok),
            r == call_outcome_spec(Operation::SetState, driver_ok, last_error),
    {
        self.set_state(AdapterState::Up, driver_ok, last_error)
    }

    /// Records the driver's answer to a request to bring the adapter down.
    pub fn down(&mut self, driver_ok: bool, last_error: u32) -> (r: Result<(), DriverError>)
        ensures
            final(self)@.handle == old(self)@.handle,
            final(self)@.state == state_after(old(self)@.state, AdapterState::Down, driver_ok),
            r == call_outcome_spec(Operation::SetState, driver_ok, last_error),
    {
        self.set_state(AdapterState::Down, driver_ok, last_error)
    }

    /// Gives up the adapter after a delete call: the value is consumed, so
    /// no later operation can name it, whatever the driver answered.
    pub fn delete(self, driver_ok: bool, last_error: u32) -> (r: Result<(), DriverError>)
        ensures
            r == call_outcome_spec(Operation::Delete, driver_ok, last_error),
    {
        call_outcome(Operation::Delete, driver_ok, last_error)
    }
}

/// The result of a driver call that reports success as a flag.
pub open spec fn call_outcome_spec(operation: Operation, driver_ok: bool, last_error: u32) -> Result<(), DriverError> {
    if driver_ok {
        Ok(())
    } else {
        Err(DriverError { operation, code: last_error })
    }
}

/// Bringing an adapter to a state twice succeeds both times, when the driver
/// accepts both requests, and leaves it in that state, as once does.
pub proof fn lemma_set_state_idempotent(s: AdapterState, requested: AdapterState, last_error: u32)
    ensures
        state_after(state_after(s, requested, true), requested, true) == requested,
        state_after(state_after(s, requested, true), requested, true) == state_after(s, requested, true),
        call_outcome_spec(Operation::SetState, true, last_error) == Ok::<(), DriverError>(()),
{
}

/// Why a configuration read stopped.
#[derive(Debug, Clone, Copy, PartialEq, Eq, Structural)]
pub enum GetConfigError {
    /// The driver refused the read.
    Driver(DriverError),
    /// The driver kept asking for a larger buffer.
    TooManyAttempts,
    /// The driver reported more bytes than the buffer holds.
    BadSize,
}

/// What to do after one configuration read.
#[derive(Debug, Clone, Copy, PartialEq, Eq, Structural)]
pub enum GetConfigStep {
    /// Decode the first `n` bytes of the buffer.
    Decode(usize),
    /// Read again into a buffer of this many bytes.
    Retry(usize),
    Fail(GetConfigError),
}

/// The next step of the growing-buffer configuration read.
pub open spec fn get_config_step_spec(
    attempt: u32,
    capacity: usize,
    driver_ok: bool,
    reported_size: usize,
    last_error: u32,
) -> GetConfigStep {
    if driver_ok {
        if reported_size <= capacity {
            GetConfigStep::Decode(reported_size)
        } else {
            GetConfigStep::Fail(GetConfigError::BadSize)
        }
    } else if last_error != ERROR_MORE_DATA {
        GetConfigStep::Fail(GetConfigError::Driver(DriverError { operation: Operation::GetConfig, code: last_error }))
    } else if attempt + 1 >= MAX_GET_CONFIG_ATTEMPTS || reported_size <= capacity {
        GetConfigStep::Fail(GetConfigError::TooManyAttempts)
    } else {
        GetConfigStep::Retry(reported_size)
    }
}

/// The next step of the growing-buffer read: `attempt` reads (counting from
/// zero) have been made into a buffer of `capacity` bytes, and the driver
/// answered with `driver_ok`, the size it reported and its error code. A retry
/// is asked for only with a strictly larger buffer and within the attempt
/// bound, so the protocol always ends.
pub fn get_config_step(attempt: u32, capacity: usize, driver_ok: bool, reported_size: usize, last_error: u32) -> (r:
    GetConfigStep)
    ensures
        r == get_config_step_spec(attempt, capacity, driver_ok, reported_size, last_error),
        r matches GetConfigStep::Retry(n) ==> n > capacity && attempt + 1 < MAX_GET_CONFIG_ATTEMPTS,
{
    if driver_ok {
        if reported_size <= capacity {
            GetConfigStep::Decode(reported_size)
        } else {
            GetConfigStep::Fail(GetConfigError::BadSize)
        }
    } else if last_error != ERROR_MORE_DATA {
        GetConfigStep::Fail(GetConfigError::Driver(DriverError { operation: Operation::GetConfig, code: last_error }))
    } else if attempt >= MAX_GET_CONFIG_ATTEMPTS - 1 || reported_size <= capacity {
        GetConfigStep::Fail(GetConfigError::TooManyAttempts)
    } else {
        GetConfigStep::Retry(reported_size)
    }
}

} // verus!
