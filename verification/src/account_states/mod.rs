pub mod book;
pub mod crank;
pub mod filled_exec_report;
pub mod instrmt;
pub mod model;
pub mod instrmt_grp;
pub mod master_cfg;
pub mod nft_pool;
pub mod order;
pub mod order_header;
pub mod side;
