pub mod cancel_order;
pub mod crank;
pub mod init_master_cfg;
pub mod new_instrmt;
pub mod new_instrmt_grp;
pub mod new_nft_pool;
pub mod new_order_single;
pub mod swap_nft;
