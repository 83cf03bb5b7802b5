pub mod runner;
pub mod test_runner;
pub mod tests_supply;
