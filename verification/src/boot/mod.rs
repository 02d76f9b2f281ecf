pub mod boot_info;
