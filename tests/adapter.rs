use wireguard_nt::adapter::{
    check_handle, create_outcome, driver_version, get_config_step, Adapter, AdapterState, Created, DriverError, GetConfigError,
    GetConfigStep, Operation, ERROR_MORE_DATA, MAX_GET_CONFIG_ATTEMPTS,
};

#[test]
fn up_twice_succeeds_and_stays_up() {
    let mut a = Adapter::new(42);
    assert_eq!(a.up(true, 0), Ok(()));
    assert_eq!(a.up(true, 0), Ok(()));
    assert_eq!(a.state(), AdapterState::Up);
    assert_eq!(a.handle(), 42);
}

#[test]
fn down_twice_succeeds_and_stays_down() {
    let mut a = Adapter::new(42);
    a.up(true, 0).unwrap();
    assert_eq!(a.down(true, 0), Ok(()));
    assert_eq!(a.down(true, 0), Ok(()));
    assert_eq!(a.state(), AdapterState::Down);
}

#[test]
fn refused_state_change_keeps_state() {
    let mut a = Adapter::new(7);
    assert_eq!(a.up(false, 5), Err(DriverError { operation: Operation::SetState, code: 5 }));
    assert_eq!(a.state(), AdapterState::Down);
}

#[test]
fn delete_reports_driver_answer() {
    assert_eq!(Adapter::new(1).delete(true, 0), Ok(()));
    assert_eq!(Adapter::new(1).delete(false, 2), Err(DriverError { operation: Operation::Delete, code: 2 }));
}

#[test]
fn null_handle_is_an_error() {
    assert_eq!(check_handle(Operation::Open, 0, 2), Err(DriverError { operation: Operation::Open, code: 2 }));
    assert_eq!(check_handle(Operation::Open, 9, 2), Ok(9));
}

#[test]
fn reboot_required_is_success() {
    assert_eq!(create_outcome(9, 0, true), Ok(Created { handle: 9, reboot_required: true }));
    assert_eq!(create_outcome(0, 183, false), Err(DriverError { operation: Operation::Create, code: 183 }));
}

#[test]
fn get_config_steps() {
    assert_eq!(get_config_step(0, 512, true, 200, 0), GetConfigStep::Decode(200));
    assert_eq!(get_config_step(0, 512, true, 600, 0), GetConfigStep::Fail(GetConfigError::BadSize));
    assert_eq!(get_config_step(0, 512, false, 900, ERROR_MORE_DATA), GetConfigStep::Retry(900));
    assert_eq!(
        get_config_step(MAX_GET_CONFIG_ATTEMPTS - 1, 512, false, 900, ERROR_MORE_DATA),
        GetConfigStep::Fail(GetConfigError::TooManyAttempts)
    );
    assert_eq!(
        get_config_step(0, 512, false, 100, ERROR_MORE_DATA),
        GetConfigStep::Fail(GetConfigError::TooManyAttempts)
    );
    assert_eq!(
        get_config_step(0, 512, false, 0, 5),
        GetConfigStep::Fail(GetConfigError::Driver(DriverError { operation: Operation::GetConfig, code: 5 }))
    );
}

#[test]
fn driver_version_reports() {
    assert_eq!(driver_version(0x0001_0002, 0), Ok(0x0001_0002));
    assert_eq!(driver_version(0, 2), Err(DriverError { operation: Operation::GetDriverVersion, code: 2 }));
}

#[test]
fn up_then_down_keeps_handle() {
    let mut a = Adapter::new(11);
    a.up(true, 0).unwrap();
    a.down(true, 0).unwrap();
    assert_eq!(a.handle(), 11);
    assert_eq!(a.state(), AdapterState::Down);
}
