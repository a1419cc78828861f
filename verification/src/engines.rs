//! Detection engines: the Restart Manager query (authoritative, carries the
//! application name, may miss some holders).  The handle-table scan lives
//! in `handle_scan`; the two are merged in `detect`.
pub mod restart_manager;
