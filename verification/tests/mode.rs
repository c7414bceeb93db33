use yazi_shared::mode;
use yazi_shared::permissions;

#[test]
fn constants_are_those_of_libc() {
    assert_eq!(mode::S_IFMT, libc::S_IFMT);
    assert_eq!(mode::S_IFSOCK, libc::S_IFSOCK);
    assert_eq!(mode::S_IFLNK, libc::S_IFLNK);
    assert_eq!(mode::S_IFBLK, libc::S_IFBLK);
    assert_eq!(mode::S_IFDIR, libc::S_IFDIR);
    assert_eq!(mode::S_IFCHR, libc::S_IFCHR);
    assert_eq!(mode::S_IFIFO, libc::S_IFIFO);
    assert_eq!(mode::S_ISUID, libc::S_ISUID);
    assert_eq!(mode::S_ISGID, libc::S_ISGID);
    assert_eq!(mode::S_ISVTX, libc::S_ISVTX);
    assert_eq!(mode::S_IRUSR, libc::S_IRUSR);
    assert_eq!(mode::S_IWUSR, libc::S_IWUSR);
    assert_eq!(mode::S_IXUSR, libc::S_IXUSR);
    assert_eq!(mode::S_IRGRP, libc::S_IRGRP);
    assert_eq!(mode::S_IWGRP, libc::S_IWGRP);
    assert_eq!(mode::S_IXGRP, libc::S_IXGRP);
    assert_eq!(mode::S_IROTH, libc::S_IROTH);
    assert_eq!(mode::S_IWOTH, libc::S_IWOTH);
    assert_eq!(mode::S_IXOTH, libc::S_IXOTH);
}

#[test]
fn regular_file() {
    assert_eq!(permissions(libc::S_IFREG | 0o644), "-rw-r--r--");
    assert_eq!(permissions(libc::S_IFREG | 0o755), "-rwxr-xr-x");
    assert_eq!(permissions(libc::S_IFREG), "----------");
    assert_eq!(permissions(libc::S_IFREG | 0o777), "-rwxrwxrwx");
}

#[test]
fn file_types() {
    assert_eq!(permissions(libc::S_IFDIR | 0o755), "drwxr-xr-x");
    assert_eq!(permissions(libc::S_IFLNK | 0o777), "lrwxrwxrwx");
    assert_eq!(permissions(libc::S_IFBLK | 0o660), "brw-rw----");
    assert_eq!(permissions(libc::S_IFCHR | 0o620), "crw--w----");
    assert_eq!(permissions(libc::S_IFIFO | 0o600), "prw-------");
    assert_eq!(permissions(libc::S_IFSOCK | 0o700), "srwx------");
    assert_eq!(permissions(0o644), "-rw-r--r--");
}

#[test]
fn special_bits() {
    assert_eq!(permissions(libc::S_IFREG | 0o4755), "-rwsr-xr-x");
    assert_eq!(permissions(libc::S_IFREG | 0o4644), "-rwSr--r--");
    assert_eq!(permissions(libc::S_IFREG | 0o2755), "-rwxr-sr-x");
    assert_eq!(permissions(libc::S_IFREG | 0o2745), "-rwxr-Sr-x");
    assert_eq!(permissions(libc::S_IFDIR | 0o1777), "drwxrwxrwt");
    assert_eq!(permissions(libc::S_IFDIR | 0o1776), "drwxrwxrwT");
    assert_eq!(permissions(libc::S_IFREG | 0o7000), "---S--S--T");
    assert_eq!(permissions(libc::S_IFREG | 0o7111), "---s--s--t");
}

#[test]
fn each_permission_bit_has_its_place() {
    assert_eq!(permissions(0o400), "-r--------");
    assert_eq!(permissions(0o200), "--w-------");
    assert_eq!(permissions(0o100), "---x------");
    assert_eq!(permissions(0o040), "----r-----");
    assert_eq!(permissions(0o020), "-----w----");
    assert_eq!(permissions(0o010), "------x---");
    assert_eq!(permissions(0o004), "-------r--");
    assert_eq!(permissions(0o002), "--------w-");
    assert_eq!(permissions(0o001), "---------x");
}
